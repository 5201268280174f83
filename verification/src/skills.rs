//! The installed skills, and whether there are too many.

use vstd::prelude::*;

use crate::json;
use crate::lists;
use crate::package;
use crate::paths;
use crate::text;

verus! {

/// How many skills are few enough.
pub const DEFAULT_CAP: usize = 15;

/// An entry of the directory of skills.
pub struct DirEntry {
    /// Its name, where it is text.
    pub name: Option<String>,
    pub is_dir: bool,
    /// Whether it holds the file that makes it a skill.
    pub has_skill_file: bool,
}

/// Whether an entry is a skill.
pub open spec fn is_skill(e: DirEntry) -> bool {
    e.is_dir && e.has_skill_file && e.name is Some
}

/// The names of the skills among entries.
pub open spec fn skill_names(v: Seq<DirEntry>) -> Seq<Seq<char>>
    decreases v.len(),
{
    if v.len() == 0 {
        Seq::empty()
    } else if is_skill(v.last()) {
        skill_names(v.drop_last()).push(v.last().name->0@)
    } else {
        skill_names(v.drop_last())
    }
}

/// The names of the skills among entries, in their order, each once.
pub fn scan(entries: &Vec<DirEntry>) -> (r: Vec<String>)
    ensures
        text::texts(r@) == lists::sorted_set(skill_names(entries@)),
{
    let mut found: Vec<String> = Vec::new();
    let mut i: usize = 0;
    assert(entries@.take(0) =~= Seq::empty());
    assert(text::texts(found@) =~= Seq::empty());
    while i < entries.len()
        invariant
            i <= entries@.len(),
            text::texts(found@) == skill_names(entries@.take(i as int)),
        decreases entries@.len() - i,
    {
        let e = &entries[i];
        assert(entries@.take(i + 1).drop_last() =~= entries@.take(i as int));
        assert(entries@.take(i + 1).last() == *e);
        match &e.name {
            Some(name) => {
                if e.is_dir && e.has_skill_file {
                    proof {
                        text::lemma_texts_push(found@, *name);
                    }
                    found.push(name.clone());
                }
            },
            None => {},
        }
        i = i + 1;
    }
    assert(entries@.take(i as int) =~= entries@);
    lists::sort_set(&found)
}

/// Only skills are found, and all of them.
pub proof fn scan_finds_the_skills(v: Seq<DirEntry>, name: Seq<char>)
    ensures
        lists::sorted_set(skill_names(v)).contains(name) <==> exists|i: int|
            0 <= i < v.len() && is_skill(#[trigger] v[i]) && v[i].name->0@ == name,
{
    lists::sorted_set_is_a_set(skill_names(v));
    lemma_skill_names(v, name);
}

proof fn lemma_skill_names(v: Seq<DirEntry>, name: Seq<char>)
    ensures
        skill_names(v).contains(name) <==> exists|i: int|
            0 <= i < v.len() && is_skill(#[trigger] v[i]) && v[i].name->0@ == name,
    decreases v.len(),
{
    if v.len() > 0 {
        let w = v.drop_last();
        lemma_skill_names(w, name);
        let a = skill_names(w);
        let r = skill_names(v);
        if r.contains(name) {
            let k = choose|k: int| 0 <= k < r.len() && r[k] == name;
            if k < a.len() {
                assert(a[k] == name);
                let i = choose|i: int|
                    0 <= i < w.len() && is_skill(#[trigger] w[i]) && w[i].name->0@ == name;
                assert(v[i] == w[i]);
            } else {
                assert(is_skill(v[v.len() - 1]));
            }
        }
        if exists|i: int| 0 <= i < v.len() && is_skill(#[trigger] v[i]) && v[i].name->0@ == name {
            let i = choose|i: int|
                0 <= i < v.len() && is_skill(#[trigger] v[i]) && v[i].name->0@ == name;
            if i < w.len() {
                assert(w[i] == v[i]);
                let k = choose|k: int| 0 <= k < a.len() && a[k] == name;
                assert(r[k] == name);
            } else {
                assert(r[r.len() - 1] == name);
            }
        }
    }
}

/// The directory of skills in the home directory.
pub fn home_default(home: Option<&str>) -> (r: Option<String>)
    ensures
        text::opt_string(r) == (match home {
            Some(h) => Some(paths::under(paths::under(h@, package::named("."@, ""@)), "skills"@)),
            None => None,
        }),
{
    match home {
        Some(h) => {
            let dir = paths::join(h, package::name_in(".", "").as_str());
            Some(paths::join(dir.as_str(), "skills"))
        },
        None => None,
    }
}

/// Whether there are more skills than are few enough.
pub fn is_over(count: usize, cap: usize) -> (r: bool)
    ensures
        r == (count > cap),
{
    count > cap
}

/// The lines of a list of names.
pub open spec fn name_lines(names: Seq<Seq<char>>) -> Seq<Seq<char>> {
    names.map_values(|s: Seq<char>| "  - "@ + s)
}

/// The lines of a report.
pub open spec fn report_text(dir: Seq<char>, names: Seq<Seq<char>>, cap: nat) -> Seq<Seq<char>> {
    let count = names.len();
    seq![
        "skill-count-audit"@,
        "  dir:   "@ + dir,
        "  count: "@ + text::decimal(count),
        "  cap:   "@ + text::decimal(cap),
    ] + (if count > cap {
        seq![
            "  status: OVER (by "@ + text::decimal((count - cap) as nat) + ")"@,
            ""@,
            "Suggested next steps:"@,
            "  * Retire skills you no longer reach for (delete the dir)."@,
            "  * Move callable surface to MCP — deferred-schema-loaded tools cost no context tokens until invoked."@,
            "  * Fold adjacent skills into one (e.g. /loop-* could be /loop with subcommands)."@,
        ]
    } else {
        seq!["  status: ok ("@ + text::decimal((cap - count) as nat) + " under cap)"@]
    }) + seq![""@, "Installed skills ("@ + text::decimal(count) + "):"@] + name_lines(names)
}

/// A text, a number and a text.
fn counted(head: &str, n: usize, tail: &str) -> (r: String)
    ensures
        r@ == head@ + text::decimal(n as nat) + tail@,
{
    let mut r = String::from_str(head);
    r.append(text::show_usize(n).as_str());
    r.append(tail);
    r
}

/// The lines of a report.
pub fn print_text(dir: &str, cap: usize, skills: &Vec<String>) -> (r: Vec<String>)
    ensures
        text::texts(r@) == report_text(dir@, text::texts(skills@), cap as nat),
{
    let ghost names = text::texts(skills@);
    let count: usize = skills.len();
    let mut out: Vec<String> = Vec::new();
    text::say(&mut out, String::from_str("skill-count-audit"));
    let mut place = String::from_str("  dir:   ");
    place.append(dir);
    text::say(&mut out, place);
    let mut a = String::from_str("  count: ");
    a.append(text::show_usize(count).as_str());
    text::say(&mut out, a);
    let mut b = String::from_str("  cap:   ");
    b.append(text::show_usize(cap).as_str());
    text::say(&mut out, b);
    if count > cap {
        text::say(&mut out, counted("  status: OVER (by ", count - cap, ")"));
        text::say(&mut out, String::from_str(""));
        text::say(&mut out, String::from_str("Suggested next steps:"));
        text::say(
            &mut out,
            String::from_str("  * Retire skills you no longer reach for (delete the dir)."),
        );
        text::say(
            &mut out,
            String::from_str(
                "  * Move callable surface to MCP — deferred-schema-loaded tools cost no context tokens until invoked.",
            ),
        );
        text::say(
            &mut out,
            String::from_str(
                "  * Fold adjacent skills into one (e.g. /loop-* could be /loop with subcommands).",
            ),
        );
    } else {
        text::say(&mut out, counted("  status: ok (", cap - count, " under cap)"));
    }
    text::say(&mut out, String::from_str(""));
    text::say(&mut out, counted("Installed skills (", count, "):"));
    let ghost head = text::texts(out@);
    let ghost rows = name_lines(names);
    let mut i: usize = 0;
    assert(head + rows.take(0) =~= head);
    while i < skills.len()
        invariant
            i <= skills@.len(),
            names == text::texts(skills@),
            rows == name_lines(names),
            text::texts(out@) == head + rows.take(i as int),
        decreases skills@.len() - i,
    {
        let mut s = String::from_str("  - ");
        s.append(skills[i].as_str());
        assert(s@ == rows[i as int]);
        text::say(&mut out, s);
        assert(text::texts(out@) =~= head + rows.take(i + 1));
        i = i + 1;
    }
    assert(rows.take(i as int) =~= rows);
    assert(text::texts(out@) =~= report_text(dir@, names, cap as nat));
    out
}

/// Names as JSON strings.
pub open spec fn quoted_names(names: Seq<Seq<char>>) -> Seq<Seq<char>> {
    names.map_values(|s: Seq<char>| json::quoted(s))
}

/// A report in JSON.
pub fn print_json(cap: usize, skills: &Vec<String>) -> (r: String)
    ensures
        r@ == "{\"count\":"@ + text::decimal(skills@.len()) + ",\"cap\":"@ + text::decimal(
            cap as nat,
        ) + ",\"over\":"@ + json::bool_of(skills@.len() > cap) + ",\"skills\":"@ + json::array_of(
            quoted_names(text::texts(skills@)),
        ) + "}"@,
{
    let ghost all = quoted_names(text::texts(skills@));
    let mut quoted: Vec<String> = Vec::new();
    let mut i: usize = 0;
    while i < skills.len()
        invariant
            i <= skills@.len(),
            all == quoted_names(text::texts(skills@)),
            text::texts(quoted@) == all.take(i as int),
        decreases skills@.len() - i,
    {
        text::say(&mut quoted, json::quote(skills[i].as_str()));
        assert(text::texts(quoted@) =~= all.take(i + 1));
        i = i + 1;
    }
    assert(all.take(i as int) =~= all);
    let mut r = String::from_str("{\"count\":");
    r.append(text::show_usize(skills.len()).as_str());
    r.append(",\"cap\":");
    r.append(text::show_usize(cap).as_str());
    r.append(",\"over\":");
    r.append(json::show_bool(skills.len() > cap));
    r.append(",\"skills\":");
    r.append(json::array(&quoted).as_str());
    r.append("}");
    r
}

/// The report in JSON where the directory is missing.
pub fn missing_json(dir: &str) -> (r: String)
    ensures
        r@ == "{\"error\":\"missing-dir\",\"dir\":"@ + json::quoted(dir@) + "}"@,
{
    let mut r = String::from_str("{\"error\":\"missing-dir\",\"dir\":");
    r.append(json::quote(dir).as_str());
    r.append("}");
    r
}

// ---- laws -----------------------------------------------------------------

/// A skill is a directory with a name that is text and the file that makes it
/// one; nothing else counts, and each name counts once.
pub proof fn only_skills_are_counted(v: Seq<DirEntry>, name: Seq<char>)
    ensures
        lists::sorted_set(skill_names(v)).contains(name) <==> exists|i: int|
            0 <= i < v.len() && (#[trigger] v[i]).is_dir && v[i].has_skill_file && (
            v[i].name matches Some(s) && s@ == name),
{
    scan_finds_the_skills(v, name);
    if exists|i: int| 0 <= i < v.len() && is_skill(#[trigger] v[i]) && v[i].name->0@ == name {
        let i = choose|i: int|
            0 <= i < v.len() && is_skill(#[trigger] v[i]) && v[i].name->0@ == name;
        assert(v[i].is_dir && v[i].has_skill_file && v[i].name is Some);
    }
    if exists|i: int|
        0 <= i < v.len() && (#[trigger] v[i]).is_dir && v[i].has_skill_file && (
        v[i].name matches Some(s) && s@ == name) {
        let i = choose|i: int|
            0 <= i < v.len() && (#[trigger] v[i]).is_dir && v[i].has_skill_file && (
            v[i].name matches Some(s) && s@ == name);
        assert(is_skill(v[i]));
    }
}

/// A report counts the skills and says by how many there are too many, or how
/// many more there may be; as many as there may be are not too many.
pub proof fn report_compares_with_the_cap(dir: Seq<char>, names: Seq<Seq<char>>, cap: nat)
    ensures
        ({
            let r = report_text(dir, names, cap);
            &&& r[2] == "  count: "@ + text::decimal(names.len())
            &&& r[3] == "  cap:   "@ + text::decimal(cap)
            &&& names.len() > cap ==> r[4] == "  status: OVER (by "@ + text::decimal(
                (names.len() - cap) as nat,
            ) + ")"@
            &&& names.len() <= cap ==> r[4] == "  status: ok ("@ + text::decimal(
                (cap - names.len()) as nat,
            ) + " under cap)"@
            &&& forall|i: int|
                0 <= i < names.len() ==> r.contains("  - "@ + #[trigger] names[i])
        }),
{
    let r = report_text(dir, names, cap);
    let lines = name_lines(names);
    assert forall|i: int| 0 <= i < names.len() implies r.contains("  - "@ + #[trigger] names[i]) by {
        assert(lines[i] == "  - "@ + names[i]);
        assert(r[r.len() - lines.len() + i] == lines[i]);
    }
}

} // verus!
