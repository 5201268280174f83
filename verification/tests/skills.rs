use claude_tools::package::NAME;
use claude_tools::skills::{
    home_default, is_over, missing_json, print_json, print_text, scan, DirEntry, DEFAULT_CAP,
};

fn dir(name: &str, has_skill_file: bool) -> DirEntry {
    DirEntry { name: Some(name.to_string()), is_dir: true, has_skill_file }
}

#[test]
fn scan_finds_only_dirs_with_skill_md() {
    let entries = vec![
        dir("beta", true),
        dir("alpha", true),
        // A dir WITHOUT SKILL.md should NOT count.
        dir("not-a-skill", false),
        // A file at root should NOT count.
        DirEntry { name: Some("stray.txt".to_string()), is_dir: false, has_skill_file: false },
        DirEntry { name: None, is_dir: true, has_skill_file: true },
    ];
    let skills = scan(&entries);
    assert_eq!(skills.len(), 2);
    assert_eq!(skills, ["alpha", "beta"]);
}

#[test]
fn default_cap_is_fifteen() {
    assert_eq!(DEFAULT_CAP, 15);
}

#[test]
fn print_json_round_trips() {
    let skills = vec!["alpha".to_owned(), "beta".to_owned()];
    let text = print_json(15, &skills);
    assert_eq!(text, r#"{"count":2,"cap":15,"over":false,"skills":["alpha","beta"]}"#);
    let v: serde_json::Value = serde_json::from_str(&text).unwrap();
    assert_eq!(v["count"], 2);
    assert_eq!(v["skills"][1], "beta");
    assert_eq!(print_json(0, &Vec::new()), r#"{"count":0,"cap":0,"over":false,"skills":[]}"#);
}

#[test]
fn names_are_escaped_in_json() {
    let names = vec!["a\"b".to_string(), "c\\d".to_string()];
    let text = print_json(1, &names);
    assert_eq!(text, r#"{"count":2,"cap":1,"over":true,"skills":["a\"b","c\\d"]}"#);
    let v: serde_json::Value = serde_json::from_str(&text).unwrap();
    assert_eq!(v["skills"][0], "a\"b");
    assert_eq!(v["skills"][1], "c\\d");
    assert_eq!(missing_json("/x\"y"), r#"{"error":"missing-dir","dir":"/x\"y"}"#);
}

#[test]
fn over_cap_sets_over_flag() {
    let entries: Vec<DirEntry> = (0..17).map(|i| dir(&format!("skill-{i}"), true)).collect();
    let skills = scan(&entries);
    assert!(skills.len() > 15);
    assert!(is_over(skills.len(), DEFAULT_CAP));
    assert!(!is_over(15, 15));
    assert!(is_over(16, 15));
    assert_eq!(skills[1], "skill-1");
    assert_eq!(skills[2], "skill-10");
}

#[test]
fn text_reports() {
    let skills = vec!["a".to_string(), "b".to_string()];
    assert_eq!(
        print_text("/d", 3, &skills),
        [
            "skill-count-audit",
            "  dir:   /d",
            "  count: 2",
            "  cap:   3",
            "  status: ok (1 under cap)",
            "",
            "Installed skills (2):",
            "  - a",
            "  - b",
        ]
    );
    let over = print_text("/d", 1, &skills);
    assert_eq!(over[4], "  status: OVER (by 1)");
    assert_eq!(
        &over[5..10],
        [
            "",
            "Suggested next steps:",
            "  * Retire skills you no longer reach for (delete the dir).",
            "  * Move callable surface to MCP — deferred-schema-loaded tools cost no context tokens until invoked.",
            "  * Fold adjacent skills into one (e.g. /loop-* could be /loop with subcommands).",
        ]
    );
}

#[test]
fn skills_directory() {
    let family = NAME.split('_').next().unwrap();
    assert_eq!(home_default(Some("/h")).unwrap(), format!("/h/.{family}/skills"));
    assert_eq!(home_default(None), None);
}
