use claude_tools::package::NAME;
use claude_tools::session::{
    dirty_hint, fresh, git_toplevel, guard, is_active, isolated, isolation, isolation_report,
    list, new_record, newest_transcript, projects_dir, reg_dir, reg_path, registered, release,
    release_error, released, resolve_sid, sessions_in, short, valid_sid, worktree_args,
    worktrees_root, Record, ReleaseError, Transcript, ACTIVE_SECS,
};

fn family() -> &'static str {
    NAME.split('_').next().unwrap()
}

#[test]
fn directories_of_sessions() {
    let f = family();
    assert_eq!(reg_dir(Some("/h")), format!("/h/.{f}/sessions"));
    assert_eq!(reg_dir(None), format!("/root/.{f}/sessions"));
    assert_eq!(reg_path(Some("/h"), "s"), format!("/h/.{f}/sessions/s.json"));
    assert_eq!(projects_dir(Some("/h")), format!("/h/.{f}/projects"));
    assert_eq!(worktrees_root(Some("/h")), format!("/h/.{f}/worktrees"));
}

#[test]
fn identifiers_are_restricted() {
    assert!(valid_sid("0123-abc_DEF"));
    assert!(!valid_sid(""));
    assert!(!valid_sid("a/b"));
    assert!(!valid_sid(".."));
    assert!(!valid_sid("é"));
    assert!(valid_sid(&"a".repeat(100)));
    assert!(!valid_sid(&"a".repeat(101)));
    assert_eq!(short("0123456789"), "01234567");
    assert_eq!(short("012"), "012");
}

#[test]
fn sessions_are_resolved() {
    let t = |path: &str, name: &str, mtime: i128| Transcript {
        path: path.to_string(),
        name: name.to_string(),
        mtime,
    };
    let v = vec![t("/a/x.jsonl", "x.jsonl", 5), t("/a/y.jsonl", "y.jsonl", 9), t("/b/z.jsonl", "z.jsonl", 9), t("/b/w.txt", "w.txt", 99)];
    assert_eq!(newest_transcript(&v), Some(("y".to_string(), "/a/y.jsonl".to_string())));
    assert_eq!(newest_transcript(&Vec::new()), None);
    assert_eq!(resolve_sid(Some("a"), Some("b"), Some("c")).unwrap(), "a");
    assert_eq!(resolve_sid(None, Some("b"), Some("c")).unwrap(), "b");
    assert_eq!(resolve_sid(None, Some(""), Some("c")).unwrap(), "c");
    assert_eq!(resolve_sid(Some("a/b"), Some("b"), None), None);
    assert_eq!(resolve_sid(None, None, None), None);
}

#[test]
fn activity() {
    assert_eq!(ACTIVE_SECS, 600);
    assert!(fresh(Some(599)));
    assert!(!fresh(Some(600)));
    assert!(!fresh(None));
    assert!(is_active(None, Some(1)));
    assert!(is_active(Some(1), None));
    assert!(!is_active(Some(600), Some(600)));
    assert_eq!(git_toplevel(Some("/r")).unwrap(), "/r");
    assert_eq!(git_toplevel(Some("")), None);
    assert_eq!(git_toplevel(None), None);
}

fn rec(sid: &str, repo: Option<&str>) -> Record {
    let mut r = new_record(sid, "/pwd", Some("/t".to_string()), "T");
    r.repo_root = repo.map(str::to_string);
    r
}

#[test]
fn records_are_refreshed() {
    let r = rec("s", None);
    assert_eq!((r.started_at.as_str(), r.last_seen.as_str()), ("T", "T"));
    assert_eq!(r.transcript.as_deref(), Some("/t"));
    let r = registered(r, "/new", Some("/repo".to_string()), None, "U");
    assert_eq!((r.pwd.as_str(), r.repo_root.as_deref()), ("/new", Some("/repo")));
    assert_eq!(r.transcript, None);
    assert_eq!((r.started_at.as_str(), r.last_seen.as_str()), ("T", "U"));
}

#[test]
fn collisions_are_told() {
    let f = family();
    let recs = vec![rec("aaaaaaaaaa", Some("/r")), rec("bbbb", Some("/r")), rec("cccc", None)];
    let active = vec![true, true, false];
    assert_eq!(sessions_in(&recs, &active, "/r"), ["aaaaaaaa", "bbbb"]);
    let g = guard(&recs, &active, "/r", Some("bbbb"));
    assert!(g.collision);
    assert_eq!(
        g.lines,
        [
            "⚠ 2 active sessions share the live tree of /r — [\"aaaaaaaa\", \"bbbb\"]".to_string(),
            format!("  isolate this one: {f}-session isolate"),
        ]
    );
    // Alone in the tree: only whoever else asks is stopped.
    let alone = vec![true, false, true];
    let g = guard(&recs, &alone, "/r", Some("aaaaaaaaaa"));
    assert!(!g.collision);
    assert_eq!(g.lines, ["ok: no live-tree collision for /r"]);
    for me in [Some("dddd"), Some("bbbb"), None] {
        let g = guard(&recs, &alone, "/r", me);
        assert!(g.collision);
        assert_eq!(
            g.lines[0],
            "⚠ 1 active sessions share the live tree of /r — [\"aaaaaaaa\"]"
        );
    }
    assert!(!guard(&recs, &vec![false, false, true], "/r", None).collision);
    assert!(!guard(&recs, &alone, "/elsewhere", None).collision);
    assert_eq!(
        list(&recs, &active),
        [
            "session    active  tree      repo / pwd".to_string(),
            "aaaaaaaa   yes     live      /r".to_string(),
            "bbbb       yes     live      /r".to_string(),
            "cccc       no      live      /pwd".to_string(),
            "".to_string(),
            "⚠ COLLISION: 2 active sessions share the LIVE tree of /r — [\"aaaaaaaa\", \"bbbb\"]".to_string(),
            format!("  -> isolate one: {f}-session isolate   # run inside that session"),
        ]
    );
    let calm = list(&recs, &vec![true, false, false]);
    assert_eq!(calm[4], "");
    assert_eq!(
        calm[5],
        "no collisions: no repo has 2+ active sessions in its live working tree."
    );
    assert_eq!(
        list(&Vec::new(), &Vec::new()),
        [format!("no sessions registered (run: {f}-session register)")]
    );
}

#[test]
fn sessions_are_isolated_and_released() {
    let f = family();
    let plan = isolation(Some("/h"), Some("repo"), "0123456789");
    assert_eq!(plan.worktree, format!("/h/.{f}/worktrees/repo/01234567"));
    assert_eq!(plan.parent, format!("/h/.{f}/worktrees/repo"));
    assert_eq!(plan.branch, "session/01234567");
    assert_eq!(plan.probe, ["rev-parse", "--verify", "refs/heads/session/01234567"]);
    assert_eq!(
        worktree_args(&plan, true, None),
        ["worktree", "add", plan.worktree.as_str(), "session/01234567"]
    );
    assert_eq!(
        worktree_args(&plan, false, None),
        ["worktree", "add", "-b", "session/01234567", plan.worktree.as_str(), "HEAD"]
    );
    assert_eq!(worktree_args(&plan, false, Some("dev"))[5], "dev");
    assert_eq!(
        isolation_report(&plan, "0123456789"),
        [
            "isolated session 01234567".to_string(),
            format!("  worktree: {}", plan.worktree),
            "  branch:   session/01234567".to_string(),
            format!("  -> cd {}   (work there; merge the branch back later)", plan.worktree),
            format!("  -> release with: {f}-session release"),
        ]
    );
    let r = isolated(rec("0123456789", None), "/r", &plan, "U");
    assert_eq!(r.worktree.as_deref(), Some(plan.worktree.as_str()));
    // An isolated session collides with none.
    let g = guard(&vec![r, rec("bbbb", Some("/r"))], &vec![true, true], "/r", Some("bbbb"));
    assert!(!g.collision);

    let r = isolated(rec("0123456789", None), "/r", &plan, "U");
    let undo = release(Some(&r), false).unwrap();
    assert_eq!((undo.repo.as_str(), undo.worktree.as_str()), ("/r", plan.worktree.as_str()));
    assert_eq!(undo.remove, ["worktree", "remove", plan.worktree.as_str()]);
    assert_eq!(undo.delete.unwrap(), ["branch", "-D", "session/01234567"]);
    assert_eq!(release(Some(&r), true).unwrap().delete, None);
    let r = released(r, "V");
    assert_eq!((r.worktree, r.branch, r.last_seen.as_str()), (None, None, "V"));
    assert!(isolation(None, None, "s").worktree.ends_with("/worktrees/repo/s"));
}

#[test]
fn releases_are_refused() {
    assert!(matches!(release(None, false), Err(ReleaseError::NoRecord)));
    assert!(matches!(release(Some(&rec("s", None)), false), Err(ReleaseError::NoWorktree)));
    let mut r = rec("s", None);
    r.worktree = Some("/w".to_string());
    assert!(matches!(release(Some(&r), false), Err(ReleaseError::NoRepoRoot)));
    assert_eq!(release_error(ReleaseError::NoRecord), "no registry record for this session");
    assert_eq!(release_error(ReleaseError::NoWorktree), "this session has no worktree recorded");
    assert_eq!(release_error(ReleaseError::NoRepoRoot), "no repo_root recorded");
    assert_eq!(
        dirty_hint("why", "/w"),
        "why\n  the worktree has uncommitted changes — commit/stash in /w first, or `git worktree remove --force` by hand if you're sure"
    );
}
