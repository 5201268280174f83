//! The names that sessions are shown under.

use vstd::prelude::*;

use crate::lists;
use crate::mesh::reading;
use crate::text;

verus! {

/// The role in an identifier.
pub open spec fn role_in(id: Seq<char>) -> Seq<char> {
    text::pieces(id, '@')[0]
}

/// The role in an identifier.
pub fn role_of(id: &str) -> (r: String)
    ensures
        r@ == role_in(id@),
{
    let parts = text::split(id, '@');
    assert(text::pieces(id@, '@')[0] == parts@[0]@);
    parts[0].clone()
}

/// The short form of an identifier.
pub fn short(id: &str) -> (r: String)
    ensures
        r@ == role_in(id@),
{
    role_of(id)
}

/// How many identifiers of a list are of a role.
pub open spec fn of_role(ids: Seq<Seq<char>>, role: Seq<char>) -> nat
    decreases ids.len(),
{
    if ids.len() == 0 {
        0
    } else {
        of_role(ids.drop_last(), role) + (if role_in(ids.last()) == role {
            1nat
        } else {
            0
        })
    }
}

/// Which of its role an identifier is in a list, counted from one; zero where
/// the list does not have it.
pub open spec fn rank(ids: Seq<Seq<char>>, id: Seq<char>) -> nat
    decreases ids.len(),
{
    if ids.len() == 0 {
        0
    } else if ids.last() == id {
        of_role(ids, role_in(id))
    } else {
        rank(ids.drop_last(), id)
    }
}

/// The name of a session: the owner's own, else its role, with a number where
/// more than one of that role is present.
pub open spec fn display_name(present: Seq<Seq<char>>, id: Seq<char>) -> Seq<char> {
    let role = role_in(id);
    if role == "owner"@ {
        "Paul"@
    } else if rank(present, id) > 0 && of_role(present, role) > 1 {
        role + " "@ + text::decimal(rank(present, id))
    } else {
        role
    }
}

/// The identifiers of a list with their names.
pub open spec fn named(
    ids: Seq<Seq<char>>,
    present: Seq<Seq<char>>,
) -> Seq<(Seq<char>, Seq<char>)> {
    ids.map_values(|id: Seq<char>| (id, display_name(present, id)))
}

/// How many identifiers of a list are of a role, and which of them one is.
fn count_role(ids: &Vec<String>, role: &str, id: &str) -> (r: (usize, usize))
    requires
        role@ == role_in(id@),
    ensures
        r.0 == of_role(text::texts(ids@), role@),
        r.1 == rank(text::texts(ids@), id@),
{
    let ghost all = text::texts(ids@);
    let mut count: usize = 0;
    let mut place: usize = 0;
    let mut i: usize = 0;
    assert(all.take(0) =~= Seq::empty());
    while i < ids.len()
        invariant
            i <= ids.len(),
            all == text::texts(ids@),
            role@ == role_in(id@),
            count <= i,
            count == of_role(all.take(i as int), role@),
            place == rank(all.take(i as int), id@),
        decreases ids@.len() - i,
    {
        proof {
            assert(all.take(i + 1).drop_last() =~= all.take(i as int));
            assert(all.take(i + 1).last() == ids@[i as int]@);
        }
        if text::same(role_of(ids[i].as_str()).as_str(), role) {
            count = count + 1;
        }
        if text::same(ids[i].as_str(), id) {
            place = count;
        }
        i = i + 1;
    }
    assert(all.take(i as int) =~= all);
    (count, place)
}

/// The name of a session.
fn show_name(present: &Vec<String>, id: &str) -> (r: String)
    ensures
        r@ == display_name(text::texts(present@), id@),
{
    let role = role_of(id);
    if text::same(role.as_str(), "owner") {
        return String::from_str("Paul");
    }
    let (count, place) = count_role(present, role.as_str(), id);
    if place > 0 && count > 1 {
        let mut r = role;
        r.append(" ");
        r.append(text::show_usize(place).as_str());
        r
    } else {
        role
    }
}

/// The names of sessions: of each identifier, once, in their order.
pub fn display_map(all_ids: &Vec<String>, present: &Vec<String>) -> (r: Vec<(String, String)>)
    ensures
        lists::pairs(r@) == named(
            lists::sorted_set(text::texts(all_ids@)),
            lists::sorted_set(text::texts(present@)),
        ),
{
    let pres = lists::sort_set(present);
    let ids = lists::sort_set(all_ids);
    let ghost all = named(text::texts(ids@), text::texts(pres@));
    let mut out: Vec<(String, String)> = Vec::new();
    let mut i: usize = 0;
    assert(lists::pairs(out@) =~= all.take(0));
    while i < ids.len()
        invariant
            i <= ids@.len(),
            all == named(text::texts(ids@), text::texts(pres@)),
            lists::pairs(out@) == all.take(i as int),
        decreases ids@.len() - i,
    {
        let ghost was = out@;
        assert(text::texts(ids@)[i as int] == ids@[i as int]@);
        out.push((ids[i].clone(), show_name(&pres, ids[i].as_str())));
        proof {
            lists::lemma_pairs_push(was, out@.last());
            assert(all[i as int] == lists::pair(out@.last()));
            assert(lists::pairs(out@) =~= all.take(i + 1));
        }
        i = i + 1;
    }
    assert(all.take(i as int) =~= all);
    out
}

/// The name of a session among names; its role where it has none.
pub open spec fn called(names: Seq<(Seq<char>, Seq<char>)>, id: Seq<char>) -> Seq<char> {
    match lists::found(names, id) {
        Some(n) => n,
        None => role_in(id),
    }
}

/// The name of a session among names; its role where it has none.
pub fn name_of(names: &Vec<(String, String)>, id: &str) -> (r: String)
    ensures
        r@ == called(lists::pairs(names@), id@),
{
    match lists::find(names, id) {
        Some(n) => n.clone(),
        None => short(id),
    }
}

/// A colour that names are shown in.
#[derive(Clone, Copy, Debug, PartialEq, Eq, Structural)]
pub enum Hue {
    White,
    Cyan,
    Green,
    Yellow,
    Magenta,
    LightBlue,
    LightRed,
}

/// A colour of the palette.
pub open spec fn hue(i: int) -> Hue {
    if i == 0 {
        Hue::Cyan
    } else if i == 1 {
        Hue::Green
    } else if i == 2 {
        Hue::Yellow
    } else if i == 3 {
        Hue::Magenta
    } else if i == 4 {
        Hue::LightBlue
    } else {
        Hue::LightRed
    }
}

/// The colour of a name.
pub open spec fn hue_of(name: Seq<char>) -> Hue {
    if name == "Paul"@ {
        Hue::White
    } else {
        hue(reading::name_hash(vstd::utf8::encode_utf8(name)) as int % 6)
    }
}

/// The colour of a name: always the same for one name, and the owner's own.
pub fn sender_color(name: &str) -> (r: Hue)
    ensures
        r == hue_of(name@),
{
    if text::same(name, "Paul") {
        return Hue::White;
    }
    let k: u32 = reading::hash_name(name) % 6;
    if k == 0 {
        Hue::Cyan
    } else if k == 1 {
        Hue::Green
    } else if k == 2 {
        Hue::Yellow
    } else if k == 3 {
        Hue::Magenta
    } else if k == 4 {
        Hue::LightBlue
    } else {
        Hue::LightRed
    }
}

// ---- laws -----------------------------------------------------------------

/// Rank in a list that has an identifier: at least one, and no more than there
/// are of its role.
proof fn lemma_rank(ids: Seq<Seq<char>>, id: Seq<char>)
    ensures
        ids.contains(id) <==> rank(ids, id) > 0,
        rank(ids, id) <= of_role(ids, role_in(id)),
    decreases ids.len(),
{
    if ids.len() > 0 {
        let w = ids.drop_last();
        lemma_rank(w, id);
        if ids.contains(id) && ids.last() != id {
            let k = choose|k: int| 0 <= k < ids.len() && ids[k] == id;
            assert(w[k] == id);
        }
        if w.contains(id) {
            let k = choose|k: int| 0 <= k < w.len() && w[k] == id;
            assert(ids[k] == id);
        }
        if ids.last() == id {
            assert(ids[ids.len() - 1] == id);
        }
    }
}

/// Two identifiers of one role have different ranks.
proof fn lemma_ranks_differ(ids: Seq<Seq<char>>, a: Seq<char>, b: Seq<char>)
    requires
        a != b,
        role_in(a) == role_in(b),
        ids.contains(a),
        ids.contains(b),
    ensures
        rank(ids, a) != rank(ids, b),
    decreases ids.len(),
{
    let w = ids.drop_last();
    lemma_rank(w, a);
    lemma_rank(w, b);
    let i = choose|i: int| 0 <= i < ids.len() && ids[i] == a;
    let j = choose|j: int| 0 <= j < ids.len() && ids[j] == b;
    if ids.last() == a {
        assert(w[j] == b);
    } else if ids.last() == b {
        assert(w[i] == a);
    } else {
        assert(w[i] == a);
        assert(w[j] == b);
        lemma_ranks_differ(w, a, b);
    }
}

/// Two sessions of one role that are both present are told apart by their
/// names, unless they are the owner's.
pub proof fn names_tell_sessions_apart(present: Seq<Seq<char>>, a: Seq<char>, b: Seq<char>)
    requires
        a != b,
        role_in(a) == role_in(b),
        role_in(a) != "owner"@,
        present.contains(a),
        present.contains(b),
    ensures
        display_name(present, a) != display_name(present, b),
{
    lemma_rank(present, a);
    lemma_rank(present, b);
    lemma_ranks_differ(present, a, b);
    let role = role_in(a);
    assert(of_role(present, role) > 1);
    let da = text::decimal(rank(present, a));
    let db = text::decimal(rank(present, b));
    text::lemma_decimal_value(rank(present, a));
    text::lemma_decimal_value(rank(present, b));
    assert(da != db);
    let head = role + " "@;
    assert(display_name(present, a).skip(head.len() as int) =~= da);
    assert(display_name(present, b).skip(head.len() as int) =~= db);
}

/// A session that is the only one of its role, or not present, is shown as its
/// role, without a number.
pub proof fn lone_sessions_have_plain_names(present: Seq<Seq<char>>, id: Seq<char>)
    requires
        of_role(present, role_in(id)) <= 1 || !present.contains(id),
        role_in(id) != "owner"@,
    ensures
        display_name(present, id) == role_in(id),
{
    lemma_rank(present, id);
}

/// The role of a node is what stands before the first `@` of its identifier.
pub proof fn role_stands_before_the_host(role: Seq<char>, rest: Seq<char>)
    requires
        !role.contains('@'),
    ensures
        role_in(role + seq!['@'] + rest) == role,
        role_in(role) == role,
{
    text::lemma_first_piece(role, rest, '@');
}

proof fn lemma_of_role(ids: Seq<Seq<char>>, role: Seq<char>)
    ensures
        of_role(ids, role) == ids.filter(|x: Seq<char>| role_in(x) == role).len(),
    decreases ids.len(),
{
    reveal(Seq::filter);
    if ids.len() > 0 {
        lemma_of_role(ids.drop_last(), role);
    }
}

proof fn lemma_rank_counts(ids: Seq<Seq<char>>, i: int)
    requires
        0 <= i < ids.len(),
        ids.no_duplicates(),
    ensures
        rank(ids, ids[i]) == of_role(ids.take(i + 1), role_in(ids[i])),
    decreases ids.len(),
{
    if i == ids.len() - 1 {
        assert(ids.take(i + 1) =~= ids);
    } else {
        let w = ids.drop_last();
        assert(ids.last() != ids[i]) by {
            assert(ids[ids.len() - 1] != ids[i]);
        }
        assert(w[i] == ids[i]);
        assert(w.take(i + 1) =~= ids.take(i + 1));
        assert forall|a: int, b: int| 0 <= a < w.len() && 0 <= b < w.len() && a != b implies w[a]
            != w[b] by {
            assert(ids[a] != ids[b]);
        }
        lemma_rank_counts(w, i);
    }
}

/// The owner goes by their name; everyone else by their role, and where several
/// of a role are present, each by the place that it has among them.
pub proof fn sessions_of_a_role_are_numbered(present: Seq<Seq<char>>, i: int)
    requires
        0 <= i < present.len(),
        present.no_duplicates(),
    ensures
        ({
            let role = role_in(present[i]);
            let count = present.filter(|x: Seq<char>| role_in(x) == role).len();
            let place = present.take(i + 1).filter(|x: Seq<char>| role_in(x) == role).len();
            display_name(present, present[i]) == if role == "owner"@ {
                "Paul"@
            } else if count > 1 {
                role + " "@ + text::decimal(place)
            } else {
                role
            }
        }),
{
    let role = role_in(present[i]);
    lemma_of_role(present, role);
    lemma_of_role(present.take(i + 1), role);
    lemma_rank_counts(present, i);
    lemma_rank(present, present[i]);
    assert(present.contains(present[i]));
}

/// The six colours that names get are all different, and the owner has one that
/// no other name has.
pub proof fn colours_tell_names_apart(i: int, j: int, name: Seq<char>)
    requires
        0 <= i < j < 6,
    ensures
        hue(i) != hue(j),
        hue_of("Paul"@) == Hue::White,
        name != "Paul"@ ==> hue_of(name) != Hue::White,
{
}

} // verus!
