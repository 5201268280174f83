//! JSON: text as a JSON string, and what a JSON document holds.

use vstd::prelude::*;

use crate::text;

verus! {

// ---- writing --------------------------------------------------------------

/// What stands for a character inside a JSON string.
pub open spec fn escape(c: char) -> Seq<char> {
    if c == '"' || c == '\\' {
        seq!['\\', c]
    } else if c == '\u{8}' {
        seq!['\\', 'b']
    } else if c == '\t' {
        seq!['\\', 't']
    } else if c == '\n' {
        seq!['\\', 'n']
    } else if c == '\u{c}' {
        seq!['\\', 'f']
    } else if c == '\r' {
        seq!['\\', 'r']
    } else if (c as u32) < 32 {
        seq!['\\', 'u', '0', '0', text::hex_digit(c as int / 16), text::hex_digit(c as int % 16)]
    } else {
        seq![c]
    }
}

/// `escape` as a value.
pub open spec fn escapes() -> spec_fn(char) -> Seq<char> {
    |c: char| escape(c)
}

/// A text as a JSON string, quotes included.
pub open spec fn quoted(s: Seq<char>) -> Seq<char> {
    seq!['"'] + text::expanded(s, escapes()) + seq!['"']
}

/// `serde_json::to_string` of a `str`: the text between quotes, where a quote,
/// a backslash and every control character below the space is escaped, by a
/// letter where JSON has one and else by its code in lower-case hexadecimal.
#[verifier::external_body]
pub(crate) fn quote(s: &str) -> (r: String)
    ensures
        r@ == quoted(s@),
{
    serde_json::to_string(s).unwrap()
}

/// A text as a JSON string, or `null`.
pub open spec fn quoted_or_null(s: Option<Seq<char>>) -> Seq<char> {
    match s {
        Some(s) => quoted(s),
        None => "null"@,
    }
}

/// A list of documents as a JSON array.
pub open spec fn array_of(items: Seq<Seq<char>>) -> Seq<char> {
    "["@ + text::joined(items, ","@) + "]"@
}

/// A list of documents as a JSON array.
pub fn array(items: &Vec<String>) -> (r: String)
    ensures
        r@ == array_of(text::texts(items@)),
{
    let mut r = String::from_str("[");
    r.append(text::join(items, ",").as_str());
    r.append("]");
    r
}

/// A truth value in JSON.
pub open spec fn bool_of(b: bool) -> Seq<char> {
    if b {
        "true"@
    } else {
        "false"@
    }
}

/// A truth value in JSON.
pub fn show_bool(b: bool) -> (r: &'static str)
    ensures
        r@ == bool_of(b),
{
    if b {
        "true"
    } else {
        "false"
    }
}

/// A text as a JSON string, or `null`.
pub fn quote_or_null(s: Option<&str>) -> (r: String)
    ensures
        r@ == quoted_or_null(text::opt(s)),
{
    match s {
        Some(s) => quote(s),
        None => String::from_str("null"),
    }
}

/// The two characters that one text begins with are the same where the escapes
/// of both begin it.
proof fn lemma_escape_prefix(c: char, d: char, x: Seq<char>, y: Seq<char>)
    requires
        escape(c) + x == escape(d) + y,
    ensures
        c == d,
        x == y,
{
    let l = escape(c) + x;
    let r = escape(d) + y;
    assert(l[0] == escape(c)[0] && r[0] == escape(d)[0]);
    if escape(c)[0] == '\\' {
        assert(escape(c).len() >= 2 && escape(d).len() >= 2);
        assert(l[1] == escape(c)[1] && r[1] == escape(d)[1]);
        if escape(c)[1] == 'u' {
            assert(l[4] == escape(c)[4] && r[4] == escape(d)[4]);
            assert(l[5] == escape(c)[5] && r[5] == escape(d)[5]);
        }
    }
    assert(c == d);
    assert(l.skip(escape(c).len() as int) =~= x);
    assert(r.skip(escape(d).len() as int) =~= y);
}

/// The first character of a text is escaped first.
proof fn lemma_escaped_front(s: Seq<char>)
    requires
        s.len() > 0,
    ensures
        text::expanded(s, escapes()) == escape(s[0]) + text::expanded(s.skip(1), escapes()),
{
    let head = s.take(1);
    text::lemma_expanded_concat(head, s.skip(1), escapes());
    assert(head + s.skip(1) =~= s);
    assert(head.drop_last() =~= Seq::empty());
    assert(text::expanded(head.drop_last(), escapes()) =~= Seq::empty());
    assert(text::expanded(head, escapes()) =~= escape(s[0]));
}

proof fn lemma_escaped_unique(a: Seq<char>, x: Seq<char>, b: Seq<char>, y: Seq<char>)
    requires
        text::expanded(a, escapes()) + seq!['"'] + x == text::expanded(b, escapes()) + seq!['"'] + y,
    ensures
        a == b,
        x == y,
    decreases a.len(),
{
    let ea = text::expanded(a, escapes());
    let eb = text::expanded(b, escapes());
    let l = ea + seq!['"'] + x;
    let r = eb + seq!['"'] + y;
    if a.len() == 0 && b.len() == 0 {
        assert(l.skip(1) =~= x);
        assert(r.skip(1) =~= y);
        assert(a =~= b);
    } else if a.len() == 0 {
        lemma_escaped_front(b);
        assert(l[0] == '"');
        assert(r[0] == escape(b[0])[0]);
        assert(false);
    } else if b.len() == 0 {
        lemma_escaped_front(a);
        assert(r[0] == '"');
        assert(l[0] == escape(a[0])[0]);
        assert(false);
    } else {
        lemma_escaped_front(a);
        lemma_escaped_front(b);
        let ta = text::expanded(a.skip(1), escapes()) + seq!['"'] + x;
        let tb = text::expanded(b.skip(1), escapes()) + seq!['"'] + y;
        assert(l =~= escape(a[0]) + ta);
        assert(r =~= escape(b[0]) + tb);
        lemma_escape_prefix(a[0], b[0], ta, tb);
        lemma_escaped_unique(a.skip(1), x, b.skip(1), y);
        assert(a =~= seq![a[0]] + a.skip(1));
        assert(b =~= seq![b[0]] + b.skip(1));
    }
}

/// A JSON string says where it ends and which text it stands for: two texts
/// that begin with one are equal only where those and the rests are.
pub proof fn quoted_is_unambiguous(a: Seq<char>, x: Seq<char>, b: Seq<char>, y: Seq<char>)
    requires
        quoted(a) + x == quoted(b) + y,
    ensures
        a == b,
        x == y,
{
    let l = quoted(a) + x;
    let r = quoted(b) + y;
    assert(l.skip(1) =~= text::expanded(a, escapes()) + seq!['"'] + x);
    assert(r.skip(1) =~= text::expanded(b, escapes()) + seq!['"'] + y);
    lemma_escaped_unique(a, x, b, y);
}

proof fn lemma_escape_quotes(c: char)
    ensures
        forall|k: int|
            0 <= k < escape(c).len() && #[trigger] escape(c)[k] == '"' ==> k > 0 && escape(c)[k - 1]
                == '\\',
{
    let h = text::hex_digit(c as int / 16);
    let l = text::hex_digit(c as int % 16);
    if (c as u32) < 32 {
        assert(h != '"');
        assert(l != '"');
    }
    let e = escape(c);
    assert forall|k: int| 0 <= k < e.len() && #[trigger] e[k] == '"' implies k > 0 && e[k - 1]
        == '\\' by {
        if e.len() == 6 {
            assert(e == seq!['\\', 'u', '0', '0', h, l]);
        }
    }
}

/// Inside a JSON string a quote stands only behind a backslash.
pub proof fn lemma_escaped_quotes(s: Seq<char>)
    ensures
        ({
            let e = text::expanded(s, escapes());
            forall|i: int|
                0 <= i < e.len() && #[trigger] e[i] == '"' ==> i > 0 && e[i - 1] == '\\'
        }),
    decreases s.len(),
{
    let e = text::expanded(s, escapes());
    if s.len() > 0 {
        let front = text::expanded(s.drop_last(), escapes());
        let piece = escape(s.last());
        lemma_escaped_quotes(s.drop_last());
        lemma_escape_quotes(s.last());
        assert(e == front + piece);
        assert forall|i: int| 0 <= i < e.len() && #[trigger] e[i] == '"' implies i > 0 && e[i - 1]
            == '\\' by {
            if i < front.len() {
                assert(e[i] == front[i]);
                assert(e[i - 1] == front[i - 1]);
            } else {
                let k = i - front.len();
                assert(e[i] == piece[k]);
                assert(e[i - 1] == piece[k - 1]);
            }
        }
    }
}

/// A JSON string stands on one line, whatever text it stands for.
pub proof fn quoted_is_one_line(s: Seq<char>)
    ensures
        !quoted(s).contains('\n'),
{
    lemma_escaped_one_line(s);
    let e = text::expanded(s, escapes());
    let q = quoted(s);
    assert forall|i: int| 0 <= i < q.len() implies q[i] != '\n' by {
        if 0 < i < q.len() - 1 {
            assert(q[i] == e[i - 1]);
            assert(e.contains(e[i - 1]));
        }
    }
}

proof fn lemma_escape_one_line(c: char)
    ensures
        forall|k: int| 0 <= k < escape(c).len() ==> #[trigger] escape(c)[k] != '\n',
{
    let h = text::hex_digit(c as int / 16);
    let l = text::hex_digit(c as int % 16);
    if (c as u32) < 32 {
        assert(h != '\n');
        assert(l != '\n');
    }
    let e = escape(c);
    assert forall|k: int| 0 <= k < e.len() implies #[trigger] e[k] != '\n' by {
        if e.len() == 6 {
            assert(e == seq!['\\', 'u', '0', '0', h, l]);
        }
    }
}

proof fn lemma_escaped_one_line(s: Seq<char>)
    ensures
        !text::expanded(s, escapes()).contains('\n'),
    decreases s.len(),
{
    let e = text::expanded(s, escapes());
    if s.len() > 0 {
        let front = text::expanded(s.drop_last(), escapes());
        let piece = escape(s.last());
        lemma_escaped_one_line(s.drop_last());
        lemma_escape_one_line(s.last());
        assert(e == front + piece);
        assert forall|i: int| 0 <= i < e.len() implies e[i] != '\n' by {
            if i < front.len() {
                assert(e[i] == front[i]);
                assert(front.contains(front[i]));
            } else {
                let k = i - front.len();
                assert(e[i] == piece[k]);
            }
        }
    }
}

// ---- reading --------------------------------------------------------------

/// A JSON document.
pub enum Json {
    Null,
    Bool(bool),
    /// The number, in digits.
    Number(String),
    Str(String),
    Array(Vec<Json>),
    /// The members, each key once, in the order of the keys.
    Object(Vec<(String, Json)>),
}

/// What a JSON document holds.
pub enum JsonTree {
    Null,
    Bool(bool),
    Number(Seq<char>),
    Str(Seq<char>),
    Array(Seq<JsonTree>),
    Object(Seq<(Seq<char>, JsonTree)>),
}

/// What a document holds.
pub open spec fn tree(j: Json) -> JsonTree
    decreases j,
{
    match j {
        Json::Null => JsonTree::Null,
        Json::Bool(b) => JsonTree::Bool(b),
        Json::Number(n) => JsonTree::Number(n@),
        Json::Str(s) => JsonTree::Str(s@),
        Json::Array(v) => JsonTree::Array(trees(v@)),
        Json::Object(v) => JsonTree::Object(member_trees(v@)),
    }
}

/// What the documents of a list hold.
pub open spec fn trees(v: Seq<Json>) -> Seq<JsonTree>
    decreases v,
{
    if v.len() == 0 {
        Seq::empty()
    } else {
        trees(v.drop_last()).push(tree(v.last()))
    }
}

/// What the members of an object hold.
pub open spec fn member_trees(v: Seq<(String, Json)>) -> Seq<(Seq<char>, JsonTree)>
    decreases v,
{
    if v.len() == 0 {
        Seq::empty()
    } else {
        member_trees(v.drop_last()).push((v.last().0@, tree(v.last().1)))
    }
}

impl View for Json {
    type V = JsonTree;

    open spec fn view(&self) -> JsonTree {
        tree(*self)
    }
}

/// A list holds what its documents hold, place by place.
pub proof fn lemma_trees(v: Seq<Json>)
    ensures
        trees(v).len() == v.len(),
        forall|i: int| 0 <= i < v.len() ==> #[trigger] trees(v)[i] == tree(v[i]),
    decreases v.len(),
{
    if v.len() > 0 {
        lemma_trees(v.drop_last());
        assert forall|i: int| 0 <= i < v.len() implies #[trigger] trees(v)[i] == tree(v[i]) by {
            if i < v.len() - 1 {
                assert(trees(v)[i] == trees(v.drop_last())[i]);
                assert(v.drop_last()[i] == v[i]);
            }
        }
    }
}

/// An object holds what its members hold, place by place.
pub proof fn lemma_member_trees(v: Seq<(String, Json)>)
    ensures
        member_trees(v).len() == v.len(),
        forall|i: int|
            0 <= i < v.len() ==> #[trigger] member_trees(v)[i] == (v[i].0@, tree(v[i].1)),
    decreases v.len(),
{
    if v.len() > 0 {
        lemma_member_trees(v.drop_last());
        assert forall|i: int| 0 <= i < v.len() implies #[trigger] member_trees(v)[i] == (
            v[i].0@,
            tree(v[i].1),
        ) by {
            if i < v.len() - 1 {
                assert(member_trees(v)[i] == member_trees(v.drop_last())[i]);
                assert(v.drop_last()[i] == v[i]);
            }
        }
    }
}

/// `serde_json::Value`: a parsed document.
#[verifier::external_type_specification]
#[verifier::external_body]
pub struct ExValue(serde_json::Value);

/// What a `serde_json::Value` holds.
pub uninterp spec fn value_tree(v: serde_json::Value) -> JsonTree;

/// What a text holds as a JSON document; `None` where it is none.
pub uninterp spec fn parsed(s: Seq<char>) -> Option<JsonTree>;

/// Whether a text is a whole number of 64 bits, with or without a sign.
pub open spec fn is_integer(n: Seq<char>) -> bool {
    ||| exists|k: u64| n == #[trigger] text::decimal(k as nat)
    ||| exists|k: i64| n == #[trigger] text::signed_decimal(k as int)
}

/// Whether a document is read back as it was written: its numbers are whole ones
/// of 64 bits, the keys of each object stand once and in their order, and it is
/// not nested deeper than that.
pub open spec fn regular(t: JsonTree, levels: nat) -> bool
    decreases levels,
{
    match t {
        JsonTree::Number(n) => is_integer(n),
        JsonTree::Array(items) => levels > 0 && forall|i: int|
            0 <= i < items.len() ==> regular(#[trigger] items[i], (levels - 1) as nat),
        JsonTree::Object(members) => {
            &&& levels > 0
            &&& forall|i: int|
                0 <= i < members.len() ==> regular((#[trigger] members[i]).1, (levels - 1) as nat)
            &&& forall|i: int, j: int|
                0 <= i < j < members.len() ==> text::before(members[i].0, members[j].0)
        },
        _ => true,
    }
}

/// Whether a text that holds a document, laid out and with a line feed behind
/// it, was read as that document.
pub open spec fn reads_back(s: Seq<char>, read: Option<JsonTree>) -> bool {
    forall|t: JsonTree|
        regular(t, 100) && s == #[trigger] laid_out(t, ""@) + "\n"@ ==> read == Some(t)
}

/// What was read, where something was.
pub open spec fn read_tree(v: Option<serde_json::Value>) -> Option<JsonTree> {
    match v {
        Some(v) => Some(value_tree(v)),
        None => None,
    }
}

/// `serde_json::from_str` into a `serde_json::Value`. The text alone decides
/// whether it is a document and what that holds. A document that was laid out is
/// read back as it was, up to a hundred levels of it; what other texts hold is
/// left unsaid.
#[verifier::external_body]
fn parse_value(s: &str) -> (r: Option<serde_json::Value>)
    ensures
        read_tree(r) == parsed(s@),
        reads_back(s@, read_tree(r)),
{
    serde_json::from_str(s).ok()
}

/// A `serde_json::Value` taken apart.
enum Part<'a> {
    Null,
    Bool(bool),
    Number(String),
    Str(&'a String),
    Array(&'a Vec<serde_json::Value>),
    Object(Vec<(&'a String, &'a serde_json::Value)>),
}

/// What a part holds.
spec fn part_tree(p: Part) -> JsonTree {
    match p {
        Part::Null => JsonTree::Null,
        Part::Bool(b) => JsonTree::Bool(b),
        Part::Number(n) => JsonTree::Number(n@),
        Part::Str(s) => JsonTree::Str(s@),
        Part::Array(v) => JsonTree::Array(v@.map_values(|x: serde_json::Value| value_tree(x))),
        Part::Object(v) => JsonTree::Object(
            v@.map_values(|m: (&String, &serde_json::Value)| (m.0@, value_tree(*m.1))),
        ),
    }
}

/// The variants of `serde_json::Value`: each is taken for what it holds, a
/// number as `serde_json::Number` writes it, an object as the members that
/// `serde_json::Map` lists, in its order.
#[verifier::external_body]
fn apart<'a>(v: &'a serde_json::Value) -> (r: Part<'a>)
    ensures
        part_tree(r) == value_tree(*v),
{
    match v {
        serde_json::Value::Null => Part::Null,
        serde_json::Value::Bool(b) => Part::Bool(*b),
        serde_json::Value::Number(n) => Part::Number(n.to_string()),
        serde_json::Value::String(s) => Part::Str(s),
        serde_json::Value::Array(a) => Part::Array(a),
        serde_json::Value::Object(m) => Part::Object(m.iter().collect()),
    }
}

/// A value as a document.
fn document(v: &serde_json::Value) -> (r: Json)
    ensures
        r@ == value_tree(*v),
    decreases value_tree(*v),
{
    match apart(v) {
        Part::Null => Json::Null,
        Part::Bool(b) => Json::Bool(b),
        Part::Number(n) => Json::Number(n),
        Part::Str(s) => Json::Str(s.clone()),
        Part::Array(items) => {
            let ghost all = items@.map_values(|x: serde_json::Value| value_tree(x));
            let mut out: Vec<Json> = Vec::new();
            let mut i: usize = 0;
            while i < items.len()
                invariant
                    i <= items@.len(),
                    all == items@.map_values(|x: serde_json::Value| value_tree(x)),
                    value_tree(*v) == JsonTree::Array(all),
                    trees(out@) == all.take(i as int),
                decreases items@.len() - i,
            {
                assert(all[i as int] == value_tree(items@[i as int]));
                assert(decreases_to!(value_tree(*v) => value_tree(*v)->Array_0));
                assert(decreases_to!(all => all[i as int]));
                let ghost was = out@;
                out.push(document(&items[i]));
                assert(out@.drop_last() =~= was);
                assert(trees(out@) =~= all.take(i + 1));
                i = i + 1;
            }
            assert(all.take(i as int) =~= all);
            Json::Array(out)
        },
        Part::Object(members) => {
            let ghost all = members@.map_values(
                |m: (&String, &serde_json::Value)| (m.0@, value_tree(*m.1)),
            );
            let mut out: Vec<(String, Json)> = Vec::new();
            let mut i: usize = 0;
            while i < members.len()
                invariant
                    i <= members@.len(),
                    all == members@.map_values(
                        |m: (&String, &serde_json::Value)| (m.0@, value_tree(*m.1)),
                    ),
                    value_tree(*v) == JsonTree::Object(all),
                    member_trees(out@) == all.take(i as int),
                decreases members@.len() - i,
            {
                assert(all[i as int] == (members@[i as int].0@, value_tree(*members@[i as int].1)));
                assert(decreases_to!(value_tree(*v) => value_tree(*v)->Object_0));
                assert(decreases_to!(all => all[i as int]));
                assert(decreases_to!(all[i as int] => all[i as int].1));
                let ghost was = out@;
                out.push((members[i].0.clone(), document(members[i].1)));
                assert(out@.drop_last() =~= was);
                assert(member_trees(out@) =~= all.take(i + 1));
                i = i + 1;
            }
            assert(all.take(i as int) =~= all);
            Json::Object(out)
        },
    }
}

/// The document that a text is, if it is one.
pub fn parse(s: &str) -> (r: Option<Json>)
    ensures
        match r {
            Some(j) => parsed(s@) == Some(j@),
            None => parsed(s@) is None,
        },
        reads_back(s@, parsed(s@)),
{
    match parse_value(s) {
        Some(v) => Some(document(&v)),
        None => None,
    }
}

/// The first member of that name.
pub open spec fn lookup(members: Seq<(Seq<char>, JsonTree)>, key: Seq<char>) -> Option<JsonTree>
    decreases members.len(),
{
    if members.len() == 0 {
        None
    } else if members[0].0 == key {
        Some(members[0].1)
    } else {
        lookup(members.skip(1), key)
    }
}

/// A member is found by its name, the first that has it.
pub proof fn members_are_found_by_name(members: Seq<(Seq<char>, JsonTree)>, i: int)
    requires
        0 <= i < members.len(),
        forall|k: int| 0 <= k < i ==> (#[trigger] members[k]).0 != members[i].0,
    ensures
        lookup(members, members[i].0) == Some(members[i].1),
    decreases members.len(),
{
    if i > 0 {
        let rest = members.skip(1);
        assert(rest[i - 1] == members[i]);
        assert(members[0].0 != members[i].0);
        assert forall|k: int| 0 <= k < i - 1 implies (#[trigger] rest[k]).0 != rest[i - 1].0 by {
            assert(rest[k] == members[k + 1]);
        }
        members_are_found_by_name(rest, i - 1);
    }
}

/// Nothing is found by a name that no member has.
pub proof fn other_names_find_nothing(members: Seq<(Seq<char>, JsonTree)>, key: Seq<char>)
    requires
        forall|k: int| 0 <= k < members.len() ==> (#[trigger] members[k]).0 != key,
    ensures
        lookup(members, key) is None,
    decreases members.len(),
{
    if members.len() > 0 {
        let rest = members.skip(1);
        assert forall|k: int| 0 <= k < rest.len() implies (#[trigger] rest[k]).0 != key by {
            assert(rest[k] == members[k + 1]);
        }
        other_names_find_nothing(rest, key);
    }
}

/// The member of that name, where the document is an object that has one.
pub open spec fn member(t: JsonTree, key: Seq<char>) -> Option<JsonTree> {
    match t {
        JsonTree::Object(members) => lookup(members, key),
        _ => None,
    }
}

/// The text of a document that is a string.
pub open spec fn text_of(t: Option<JsonTree>) -> Option<Seq<char>> {
    match t {
        Some(JsonTree::Str(s)) => Some(s),
        _ => None,
    }
}

/// The member of that name.
pub fn get<'a>(j: &'a Json, key: &str) -> (r: Option<&'a Json>)
    ensures
        match r {
            Some(x) => member(j@, key@) == Some(x@),
            None => member(j@, key@) is None,
        },
{
    match j {
        Json::Object(v) => {
            let mut i: usize = 0;
            let ghost all = member_trees(v@);
            proof {
                lemma_member_trees(v@);
                assert(all.skip(0) =~= all);
            }
            while i < v.len()
                invariant
                    i <= v@.len(),
                    all == member_trees(v@),
                    j@ == JsonTree::Object(all),
                    all.len() == v@.len(),
                    forall|k: int|
                        0 <= k < v@.len() ==> #[trigger] all[k] == (v@[k].0@, tree(v@[k].1)),
                    lookup(all, key@) == lookup(all.skip(i as int), key@),
                decreases v@.len() - i,
            {
                assert(all.skip(i as int)[0] == all[i as int]);
                assert(all.skip(i as int).skip(1) =~= all.skip(i + 1));
                if text::same(v[i].0.as_str(), key) {
                    return Some(&v[i].1);
                }
                i = i + 1;
            }
            None
        },
        _ => None,
    }
}

/// The text of the member of that name, where it is a string.
pub fn get_str<'a>(j: &'a Json, key: &str) -> (r: Option<&'a String>)
    ensures
        match r {
            Some(s) => text_of(member(j@, key@)) == Some(s@),
            None => text_of(member(j@, key@)) is None,
        },
{
    match get(j, key) {
        Some(Json::Str(s)) => Some(s),
        _ => None,
    }
}

/// A text as a document.
pub fn string(s: &str) -> (r: Json)
    ensures
        r@ == JsonTree::Str(s@),
{
    Json::Str(String::from_str(s))
}

/// A number as a document.
pub fn number(n: u64) -> (r: Json)
    ensures
        r@ == JsonTree::Number(text::decimal(n as nat)),
{
    Json::Number(text::show_u64(n))
}

/// A count as a document.
pub fn count(n: usize) -> (r: Json)
    ensures
        r@ == JsonTree::Number(text::decimal(n as nat)),
{
    Json::Number(text::show_usize(n))
}

// ---- layout ---------------------------------------------------------------

/// A document over several lines: each item and each member on a line of its
/// own, two columns to the right of what holds it.
pub open spec fn laid_out(t: JsonTree, indent: Seq<char>) -> Seq<char>
    decreases t,
{
    match t {
        JsonTree::Null => "null"@,
        JsonTree::Bool(b) => bool_of(b),
        JsonTree::Number(n) => n,
        JsonTree::Str(s) => quoted(s),
        JsonTree::Array(items) => if items.len() == 0 {
            "[]"@
        } else {
            "["@ + laid_out_items(items, indent + "  "@) + "\n"@ + indent + "]"@
        },
        JsonTree::Object(members) => if members.len() == 0 {
            "{}"@
        } else {
            "{"@ + laid_out_members(members, indent + "  "@) + "\n"@ + indent + "}"@
        },
    }
}

/// The items of an array on their lines.
pub open spec fn laid_out_items(items: Seq<JsonTree>, indent: Seq<char>) -> Seq<char>
    decreases items,
{
    if items.len() == 0 {
        Seq::empty()
    } else {
        laid_out_items(items.drop_last(), indent) + (if items.len() > 1 {
            ","@
        } else {
            ""@
        }) + "\n"@ + indent + laid_out(items.last(), indent)
    }
}

/// The members of an object on their lines.
pub open spec fn laid_out_members(
    members: Seq<(Seq<char>, JsonTree)>,
    indent: Seq<char>,
) -> Seq<char>
    decreases members,
{
    if members.len() == 0 {
        Seq::empty()
    } else {
        laid_out_members(members.drop_last(), indent) + (if members.len() > 1 {
            ","@
        } else {
            ""@
        }) + "\n"@ + indent + quoted(members.last().0) + ": "@ + laid_out(members.last().1, indent)
    }
}

/// A `serde_json::Value` to be put together.
enum Whole {
    Null,
    Bool(bool),
    Number(String),
    Str(String),
    Array(Vec<serde_json::Value>),
    Object(Vec<(String, serde_json::Value)>),
}

/// What the members of an object hold.
spec fn value_members(v: Seq<(String, serde_json::Value)>) -> Seq<(Seq<char>, JsonTree)> {
    v.map_values(|m: (String, serde_json::Value)| (m.0@, value_tree(m.1)))
}

/// What a whole holds.
spec fn whole_tree(w: Whole) -> JsonTree {
    match w {
        Whole::Null => JsonTree::Null,
        Whole::Bool(b) => JsonTree::Bool(b),
        Whole::Number(n) => JsonTree::Number(n@),
        Whole::Str(s) => JsonTree::Str(s@),
        Whole::Array(v) => JsonTree::Array(v@.map_values(|x: serde_json::Value| value_tree(x))),
        Whole::Object(v) => JsonTree::Object(value_members(v@)),
    }
}

/// Whether the keys of members stand once and in their order.
pub open spec fn keys_ascend(members: Seq<(Seq<char>, JsonTree)>) -> bool {
    forall|i: int, j: int|
        0 <= i < j < members.len() ==> text::before(members[i].0, members[j].0)
}

/// The variants of `serde_json::Value`, each made of what it holds: a whole number
/// as `serde_json::from_str` reads its digits, an object as `serde_json::Map`
/// collects its members, which it keeps in the order of their keys.
#[verifier::external_body]
fn together(w: Whole) -> (r: serde_json::Value)
    requires
        whole_tree(w) matches JsonTree::Number(n) ==> is_integer(n),
        whole_tree(w) matches JsonTree::Object(members) ==> keys_ascend(members),
    ensures
        value_tree(r) == whole_tree(w),
{
    match w {
        Whole::Null => serde_json::Value::Null,
        Whole::Bool(b) => serde_json::Value::Bool(b),
        Whole::Number(n) => serde_json::from_str(&n).unwrap(),
        Whole::Str(s) => serde_json::Value::String(s),
        Whole::Array(v) => serde_json::Value::Array(v),
        Whole::Object(v) => serde_json::Value::Object(v.into_iter().collect()),
    }
}

/// `serde_json::to_string_pretty` of a `serde_json::Value`: each item and each
/// member on a line of its own, two columns to the right of what holds it.
#[verifier::external_body]
fn pretty(v: &serde_json::Value) -> (r: String)
    requires
        regular(value_tree(*v), 100),
    ensures
        r@ == laid_out(value_tree(*v), ""@),
{
    serde_json::to_string_pretty(v).unwrap()
}

/// A document as a value.
fn value(j: &Json, Ghost(levels): Ghost<nat>) -> (r: serde_json::Value)
    requires
        regular(j@, levels),
    ensures
        value_tree(r) == j@,
    decreases j,
{
    match j {
        Json::Null => together(Whole::Null),
        Json::Bool(b) => together(Whole::Bool(*b)),
        Json::Number(n) => together(Whole::Number(n.clone())),
        Json::Str(s) => together(Whole::Str(s.clone())),
        Json::Array(v) => {
            let ghost all = trees(v@);
            proof {
                lemma_trees(v@);
                assert(regular(JsonTree::Array(all), levels));
            }
            let mut out: Vec<serde_json::Value> = Vec::new();
            let mut i: usize = 0;
            while i < v.len()
                invariant
                    i <= v@.len(),
                    *j == Json::Array(*v),
                    j@ == JsonTree::Array(all),
                    levels > 0,
                    forall|k: int|
                        0 <= k < all.len() ==> regular(#[trigger] all[k], (levels - 1) as nat),
                    all.len() == v@.len(),
                    forall|k: int| 0 <= k < v@.len() ==> #[trigger] all[k] == tree(v@[k]),
                    out@.map_values(|x: serde_json::Value| value_tree(x)) == all.take(i as int),
                decreases v@.len() - i,
            {
                assert(decreases_to!(j => v@[i as int]));
                assert(regular(all[i as int], (levels - 1) as nat));
                assert(all[i as int] == tree(v@[i as int]));
                let ghost was = out@.map_values(|x: serde_json::Value| value_tree(x));
                out.push(value(&v[i], Ghost((levels - 1) as nat)));
                assert(out@.map_values(|x: serde_json::Value| value_tree(x)) =~= was.push(
                    all[i as int],
                ));
                assert(was.push(all[i as int]) =~= all.take(i + 1));
                i = i + 1;
            }
            assert(all.take(i as int) =~= all);
            together(Whole::Array(out))
        },
        Json::Object(v) => {
            let ghost all = member_trees(v@);
            proof {
                lemma_member_trees(v@);
                assert(regular(JsonTree::Object(all), levels));
            }
            let mut out: Vec<(String, serde_json::Value)> = Vec::new();
            let mut i: usize = 0;
            assert(value_members(out@) =~= all.take(0));
            while i < v.len()
                invariant
                    i <= v@.len(),
                    *j == Json::Object(*v),
                    j@ == JsonTree::Object(all),
                    levels > 0,
                    forall|k: int|
                        0 <= k < all.len() ==> regular((#[trigger] all[k]).1, (levels - 1) as nat),
                    all.len() == v@.len(),
                    forall|k: int|
                        0 <= k < v@.len() ==> #[trigger] all[k] == (v@[k].0@, tree(v@[k].1)),
                    value_members(out@) == all.take(i as int),
                decreases v@.len() - i,
            {
                assert(decreases_to!(j => v@[i as int].1));
                assert(regular(all[i as int].1, (levels - 1) as nat));
                assert(all[i as int] == (v@[i as int].0@, tree(v@[i as int].1)));
                let ghost was = value_members(out@);
                out.push((v[i].0.clone(), value(&v[i].1, Ghost((levels - 1) as nat))));
                assert(value_members(out@) =~= was.push(all[i as int]));
                assert(was.push(all[i as int]) =~= all.take(i + 1));
                i = i + 1;
            }
            assert(all.take(i as int) =~= all);
            together(Whole::Object(out))
        },
    }
}

/// A document over several lines.
pub fn lay_out(j: &Json) -> (r: String)
    requires
        regular(j@, 100),
    ensures
        r@ == laid_out(j@, ""@),
{
    pretty(&value(j, Ghost(100)))
}

/// Where each name stands before the next, each stands before all that follow.
pub proof fn lemma_ascending(v: Seq<Seq<char>>, i: int, j: int)
    requires
        0 <= i < j < v.len(),
        forall|k: int| 0 <= k < v.len() - 1 ==> text::before(#[trigger] v[k], v[k + 1]),
    ensures
        text::before(v[i], v[j]),
    decreases j - i,
{
    assert(text::before(v[j - 1], v[j]));
    if i < j - 1 {
        lemma_ascending(v, i, j - 1);
        text::lemma_before_transitive(v[i], v[j - 1], v[j]);
    }
}

/// Members of which each stands before the next make up a document that is read
/// back where each of them is.
pub proof fn lemma_regular_object(members: Seq<(Seq<char>, JsonTree)>, levels: nat)
    requires
        levels > 0,
        forall|k: int|
            0 <= k < members.len() - 1 ==> text::before(
                (#[trigger] members[k]).0,
                members[k + 1].0,
            ),
        forall|k: int|
            0 <= k < members.len() ==> regular((#[trigger] members[k]).1, (levels - 1) as nat),
    ensures
        regular(JsonTree::Object(members), levels),
{
    let names = members.map_values(|m: (Seq<char>, JsonTree)| m.0);
    assert forall|k: int| 0 <= k < names.len() - 1 implies text::before(
        #[trigger] names[k],
        names[k + 1],
    ) by {
        assert(names[k] == members[k].0 && names[k + 1] == members[k + 1].0);
    }
    assert forall|i: int, j: int| 0 <= i < j < members.len() implies text::before(
        members[i].0,
        members[j].0,
    ) by {
        lemma_ascending(names, i, j);
    }
}

/// A text that holds no quote, no backslash and no control character is quoted
/// as it stands; those that it holds are escaped.
pub proof fn plain_text_is_quoted_as_it_stands(s: Seq<char>)
    ensures
        (forall|i: int|
            0 <= i < s.len() ==> #[trigger] s[i] != '"' && s[i] != '\\' && s[i] as u32 >= 32)
            ==> quoted(s) == seq!['"'] + s + seq!['"'],
        escape('"') == seq!['\\', '"'],
        escape('\\') == seq!['\\', '\\'],
        escape('\n') == seq!['\\', 'n'],
        escape('\t') == seq!['\\', 't'],
        escape('\r') == seq!['\\', 'r'],
{
    if forall|i: int|
        0 <= i < s.len() ==> #[trigger] s[i] != '"' && s[i] != '\\' && s[i] as u32 >= 32 {
        lemma_plain(s);
    }
}

proof fn lemma_plain(s: Seq<char>)
    requires
        forall|i: int|
            0 <= i < s.len() ==> #[trigger] s[i] != '"' && s[i] != '\\' && s[i] as u32 >= 32,
    ensures
        text::expanded(s, escapes()) == s,
    decreases s.len(),
{
    if s.len() > 0 {
        let w = s.drop_last();
        assert forall|i: int| 0 <= i < w.len() implies #[trigger] w[i] != '"' && w[i] != '\\'
            && w[i] as u32 >= 32 by {
            assert(w[i] == s[i]);
        }
        lemma_plain(w);
        assert(s[s.len() - 1] == s.last());
        assert(text::expanded(s, escapes()) =~= s);
    } else {
        assert(text::expanded(s, escapes()) =~= s);
    }
}

} // verus!
