use claude_tools::clock::{moment_at, Moment};
use claude_tools::json::parse;
use claude_tools::mesh::archive::{
    archive_message, archive_report, dry_line, dry_report, file_ages, msg_datetime,
    nothing_report, plan_archive, rotation, select_archive, sort_filed, Filed,
};
use claude_tools::mesh::delivery::{
    count_filled, delivery_status, first_line, first_step, next_step, pending_mesh_paths,
    post_report, regular_status, sweep_message, sync_report, Delivery, Step,
};
use claude_tools::mesh::message::{
    addressed_to_me, copy_message, filter_rooms, find_message, is_earlier, load_seen, mark_seen,
    message_file, names_me, new_post, send_from_monitor, sort_messages, sorted_msgs, unread,
    wanted_rooms, Message,
};
use claude_tools::mesh::node::{
    bare, base_home, commit, config_path, current_user, default_room, default_rooms, derive_sid8,
    full_id, git_command, git_ok, host_name, join_room, key_path, local_bus, new_config,
    node_file_path, rand_hex, sanitize, seen_path, session_dir, share_with_git_user,
    should_heal_repo_ownership, sudo_target, with_suffix, Config, Surroundings,
};
use claude_tools::mesh::reading::{
    can_list, can_log, can_nudge, hash_name, inbox, list_rooms, log, log_lines, newest_messages, nudge,
    nudge_lines, sender_color, show_excerpt, style, weigh, SHOWN,
};
use claude_tools::mesh::reading;
use claude_tools::mesh::registry::registration;
use claude_tools::mesh::roster::{
    beat_message, heartbeat, key_is_showable, new_status, presence_lines, present_ids,
    present_node, roster, roster_at, show_key, status_path, PRESENCE_TTL_SECS,
};
use claude_tools::mesh::signing::{
    key_record, node_pubkey, pubkey_hex, sign, signable_bytes, signing_key, verify_state,
};
use claude_tools::package::NAME;
use std::cell::RefCell;

fn family() -> &'static str {
    NAME.split('_').next().unwrap()
}

// Local accounts on the test's mental model: root + paul + admin exist.
fn is_account(u: &str) -> bool {
    matches!(u, "root" | "paul" | "admin")
}

#[test]
fn prime_root_tool_paul_repo_escalates() {
    // prime: tool runs as root, repo owned by paul -> sudo -u paul.
    assert_eq!(sudo_target(Some("paul"), "root", is_account), Some("paul".into()));
}

#[test]
fn cross_device_github_owner_does_not_escalate() {
    // A node mis-told to pass the GitHub repo owner. Not a local user -> run git
    // directly as the current user instead of failing sudo.
    assert_eq!(sudo_target(Some("thepictishbeast"), "admin", is_account), None);
}

#[test]
fn git_user_equals_current_no_redundant_sudo() {
    assert_eq!(sudo_target(Some("admin"), "admin", is_account), None);
}

#[test]
fn unset_git_user_no_sudo() {
    assert_eq!(sudo_target(None, "root", is_account), None);
}

#[test]
fn empty_git_user_no_sudo() {
    assert_eq!(sudo_target(Some(""), "root", is_account), None);
}

// A message that reached the shared bus but whose commit failed must NEVER
// read as committed.
#[test]
fn uncommitted_says_so_and_names_the_recovery() {
    let s = delivery_status(Delivery::OnDiskOnly);
    assert!(s.contains("NOT committed"), "{s}");
    assert!(s.contains("sync"), "{s}"); // must name the command that fixes it
}

#[test]
fn committed_but_unpushed_is_distinct_from_uncommitted() {
    let c = delivery_status(Delivery::Committed);
    assert!(c.contains("committed"), "{c}");
    assert!(!c.contains("NOT committed"), "{c}");
    assert_ne!(c, delivery_status(Delivery::OnDiskOnly));
}

#[test]
fn pushed_is_its_own_state() {
    assert_eq!(delivery_status(Delivery::Pushed), "pushed");
}

// Files this tool writes as root must be handed to the git user, or
// `git add` (running via sudo -u paul) cannot read them at all.
#[test]
fn root_written_file_is_handed_to_the_git_user() {
    let calls = RefCell::new(Vec::new());
    share_with_git_user("/x/bus/m.json", Some("paul"), |p: &str, u: &str| {
        calls.borrow_mut().push((p.to_string(), u.to_string()));
        Ok::<(), std::io::Error>(())
    });
    assert_eq!(calls.into_inner(), vec![("/x/bus/m.json".to_string(), "paul".to_string())]);
}

#[test]
fn no_escalation_means_no_chown() {
    let calls = RefCell::new(0);
    share_with_git_user("/x/bus/m.json", None, |_: &str, _: &str| {
        *calls.borrow_mut() += 1;
        Ok::<(), std::io::Error>(())
    });
    assert_eq!(calls.into_inner(), 0); // same user already owns it
}

#[test]
fn chown_failure_is_swallowed_not_fatal() {
    // delivery already happened on disk; a failed handoff must not panic
    share_with_git_user("/x/m.json", Some("paul"), |_: &str, _: &str| {
        Err(std::io::Error::other("nope"))
    });
}

// A root process touching a paul-owned clone re-roots .git/index (even a
// plain `git status` writes it), after which every git-as-paul call dies
// "Permission denied" — that is how the sweep silently swept nothing.
#[test]
fn root_tool_with_paul_git_user_heals() {
    assert!(should_heal_repo_ownership("root", Some("paul")));
}

#[test]
fn non_root_never_chowns_someone_elses_repo() {
    assert!(!should_heal_repo_ownership("paul", Some("admin")));
}

#[test]
fn no_escalation_no_heal() {
    assert!(!should_heal_repo_ownership("root", None));
}

// `sync` is documented as the recovery for an uncommitted message, so it has
// to actually SEE one. Porcelain marks untracked with '??' and modified ' M'.
#[test]
fn sweeps_untracked_and_modified_mesh_files() {
    // exactly as `git status --porcelain` emits it: 2 status chars + space
    let porcelain = format!(
        "?? bus/20260807T003124Z-governor-prime-eae77914-044d7431.json\n?? .{}/\n M nodes/governor-prime-eae77914.status\n?? notes/scratch.txt\n",
        family()
    );
    let mut got = pending_mesh_paths(&porcelain, "governor-prime-eae77914");
    got.sort();
    assert_eq!(
        got,
        vec![
            "bus/20260807T003124Z-governor-prime-eae77914-044d7431.json".to_string(),
            "nodes/governor-prime-eae77914.status".to_string(),
        ]
    );
}

#[test]
fn ignores_unrelated_paths_so_sync_never_commits_someone_elses_work() {
    // only bus/ and nodes/ are mesh data; anything else in the clone is not
    // ours to commit (another session's scratch, docs edits).
    assert!(pending_mesh_paths("?? docs/DESIGN.md\n M MESH-PROTOCOL.md\n", "me").is_empty());
}

#[test]
fn rescues_any_nodes_bus_message_but_only_my_own_status() {
    // bus messages are append-only and immutable once written — safe to
    // rescue for any node. A peer's nodes/*.status is rewritten on every
    // heartbeat; committing it mid-write is someone else's state to manage.
    let porcelain = "?? bus/20260807T0000Z-governor-prime-peer99-aaaaaaaa.json\n M nodes/governor-prime-peer99.status\n M nodes/governor-prime-me.status\n";
    let mut got = pending_mesh_paths(porcelain, "governor-prime-me");
    got.sort();
    assert_eq!(
        got,
        vec![
            "bus/20260807T0000Z-governor-prime-peer99-aaaaaaaa.json".to_string(),
            "nodes/governor-prime-me.status".to_string(),
        ]
    );
}

#[test]
fn clean_tree_has_nothing_to_sweep() {
    assert!(pending_mesh_paths("", "me").is_empty());
}

#[test]
fn renamed_and_quoted_paths_are_skipped_not_mangled() {
    // porcelain quotes paths with spaces and uses 'R  old -> new'; taking the
    // raw tail would produce a bogus pathspec, so leave those to a human.
    assert!(pending_mesh_paths("R  bus/a.json -> bus/b.json\n", "me").is_empty());
}

#[test]
fn other_statuses_are_left_alone() {
    assert!(pending_mesh_paths(" R bus/a.json\n", "me").is_empty());
    assert!(pending_mesh_paths("?? \"bus/a b.json\"\n", "me").is_empty());
    assert!(pending_mesh_paths("C  bus/a.json -> bus/b.json\n", "me").is_empty());
    assert!(pending_mesh_paths("???\n", "me").is_empty());
    assert!(pending_mesh_paths("?? bus/a.txt\n?? nodes/me.txt\n", "me").is_empty());
    assert!(pending_mesh_paths("?? nodes/nodes/me.json\n", "me").is_empty());
    assert!(pending_mesh_paths(" M nodes/governor-prime-me2.status\n", "governor-prime-me").is_empty());
    assert_eq!(
        pending_mesh_paths("A  nodes/me.json\n M nodes/me.status\n M nodes/me2.json\n", "me"),
        ["nodes/me.json", "nodes/me.status"]
    );
    assert_eq!(pending_mesh_paths("A  bus/a.json\r\n", "me"), ["bus/a.json"]);
    assert!(regular_status("?? a\n M b"));
    assert!(regular_status("é"));
    assert!(!regular_status("éé"));
    assert!(!regular_status("?é x"));
}

// ages are OLDEST-first: 100d, 40d, undatable, 10d, 5d.
const AGES: [Option<i64>; 5] = [Some(100), Some(40), None, Some(10), Some(5)];

#[test]
fn archive_keeps_newest_and_respects_age() {
    // keep newest 1 (the 5d msg); of the remaining 4, archive those >=30d.
    // idx0=100 yes, idx1=40 yes, idx2=None never, idx3=10 no.
    assert_eq!(select_archive(&AGES, 1, 30), vec![0, 1]);
}

#[test]
fn archive_keep_floor_protects_everything() {
    assert!(select_archive(&AGES, 99, 30).is_empty());
}

#[test]
fn archive_threshold_zero_takes_all_datable_but_protected() {
    // keep 1 (idx4), threshold 0: idx0/1/3 datable -> archived; idx2 undatable skipped.
    assert_eq!(select_archive(&AGES, 1, 0), vec![0, 1, 3]);
}

#[test]
fn archive_never_touches_undatable() {
    // even with keep 0 and threshold 0, the None at idx2 is never selected.
    assert_eq!(select_archive(&AGES, 0, 0), vec![0, 1, 3, 4]);
}

fn at(secs: i64) -> Moment {
    moment_at(secs).unwrap()
}

// 2026-08-07T00:00:00Z
const NOW: i64 = 1_786_060_800;

fn filed(name: &str, id: &str, ts: &str, mtime: Option<i64>) -> Filed {
    Filed { name: name.to_string(), id: id.to_string(), ts: ts.to_string(), mtime }
}

#[test]
fn archive_plans() {
    let files = vec![
        filed("c.json", "cccccccccc", "2026-08-06T00:00:00Z", None),
        filed("b.json", "bbbb", "2026-06-01T12:00:00+14:00", None),
        filed("a.json", "aaaa", "2026-06-01T12:00:00+14:00", None),
        filed("x.json", "xxxx", "not a time", Some(NOW - 100 * 86_400)),
        filed("y.json", "yyyy", "not a time", None),
    ];
    let sorted: Vec<String> = sort_filed(&files).into_iter().map(|f| f.name).collect();
    assert_eq!(sorted, ["a.json", "b.json", "c.json", "x.json", "y.json"]);
    assert_eq!(
        file_ages(&sort_filed(&files), at(NOW)),
        [Some(67), Some(67), Some(1), Some(100), None]
    );
    let plan = plan_archive(&files, at(NOW), 1, 30);
    let dests: Vec<(String, i64, String, String)> =
        plan.iter().map(|s| (s.id.clone(), s.age, s.dir.clone(), s.dest.clone())).collect();
    // 2026-06-01T12:00+14:00 is still May in UTC.
    assert_eq!(
        dests,
        [
            ("aaaa".to_string(), 67, "archive/202605".to_string(), "archive/202605/a.json".to_string()),
            ("bbbb".to_string(), 67, "archive/202605".to_string(), "archive/202605/b.json".to_string()),
            ("xxxx".to_string(), 100, "archive/202604".to_string(), "archive/202604/x.json".to_string()),
        ]
    );
    assert_eq!(dry_line(&plan[0]), "  would archive aaaa  (67d)  -> archive/202605/a.json");
    assert_eq!(dry_report(3), "archive --dry-run: 3 message(s) would move; nothing changed");
    assert_eq!(
        nothing_report(5, 200, 30),
        "archive: nothing to move (5 in hot bus, keep 200, older-than 30d)"
    );
    assert_eq!(archive_message(3, 30), "archive: 3 message(s) older than 30d -> archive/");
    assert_eq!(
        archive_report(3, 5, true),
        "archived 3 message(s) -> archive/ (pushed); hot bus now 2 message(s)"
    );
    assert_eq!(
        archive_report(3, 5, false),
        format!(
            "archived 3 message(s) -> archive/ (local commit — run: {}-mesh sync); hot bus now 2 message(s)",
            family()
        )
    );
    // A dry run moves nothing and says what it would move.
    let dry = rotation(plan_archive(&files, at(NOW), 1, 30), 5, 1, 30, true);
    assert!(dry.moves.is_empty());
    assert_eq!(
        dry.lines,
        [
            "  would archive aaaa  (67d)  -> archive/202605/a.json",
            "  would archive bbbb  (67d)  -> archive/202605/b.json",
            "  would archive xxxx  (100d)  -> archive/202604/x.json",
            "archive --dry-run: 3 message(s) would move; nothing changed",
        ]
    );
    let wet = rotation(plan, 5, 1, 30, false);
    assert_eq!(wet.moves.len(), 3);
    assert!(wet.lines.is_empty());
    for dry_run in [true, false] {
        let idle = rotation(Vec::new(), 5, 200, 30, dry_run);
        assert!(idle.moves.is_empty());
        assert_eq!(idle.lines, [nothing_report(5, 200, 30)]);
    }
    // What is left is not archived again.
    let left = vec![
        filed("c.json", "cccccccccc", "2026-08-06T00:00:00Z", None),
        filed("y.json", "yyyy", "not a time", None),
    ];
    assert!(plan_archive(&left, at(NOW), 1, 30).is_empty());
}

#[test]
fn archiving_keeps_every_message() {
    let mut bus: Vec<Filed> = (0..40)
        .map(|i| {
            let ts = format!("2026-{:02}-{:02}T00:00:00Z", 5 + i % 3, 1 + i % 28);
            filed(&format!("{i}.json"), &format!("id-{i}"), &ts, None)
        })
        .collect();
    bus.push(filed("odd.json", "id-odd", "?", None));
    let mut before: Vec<String> = bus.iter().map(|f| f.id.clone()).collect();
    let newest: Vec<String> =
        sort_filed(&bus).iter().rev().take(7).map(|f| f.id.clone()).collect();
    let plan = plan_archive(&bus, at(NOW), 7, 30);
    assert!(!plan.is_empty());
    let mut shelves: Vec<(String, String)> = Vec::new();
    for s in &plan {
        let k = bus.iter().position(|f| f.name == s.name).unwrap();
        let f = bus.remove(k);
        assert_eq!(s.dest, format!("archive/{}/{}", f.ts[..7].replace('-', ""), f.name));
        assert!(shelves.iter().all(|(dest, _)| *dest != s.dest));
        shelves.push((s.dest.clone(), f.id));
    }
    let mut after: Vec<String> = bus
        .iter()
        .map(|f| f.id.clone())
        .chain(shelves.iter().map(|(_, id)| id.clone()))
        .collect();
    before.sort();
    after.sort();
    assert_eq!(before, after);
    assert!(newest.iter().all(|id| bus.iter().any(|f| f.id == *id)));
    assert!(bus.iter().any(|f| f.id == "id-odd"));
    assert!(plan_archive(&bus, at(NOW), 7, 30).is_empty());
}

#[test]
fn messages_are_dated() {
    let m = msg_datetime("2026-08-07T02:00:00.5+02:00", None).unwrap();
    assert_eq!((m.secs, m.nanos), (NOW, 500_000_000));
    assert!(msg_datetime("2026-08-07", None).is_none());
    assert_eq!(msg_datetime("2026-08-07", Some(7)).unwrap().secs, 7);
    assert!(msg_datetime("x", Some(i64::MAX)).is_none());
}

// ---- nodes --------------------------------------------------------------------

fn cfg() -> Config {
    new_config("governor", "prime", "eae77914", "/repo", None, None)
}

#[test]
fn node_identities() {
    let c = cfg();
    assert_eq!(c.id, "governor@prime#eae77914");
    assert_eq!(c.sid8.as_deref(), Some("eae77914"));
    assert_eq!(c.rooms, ["main"]);
    assert_eq!(bare(&c), "governor@prime");
    assert_eq!(full_id("a", "b", "c"), "a@b#c");
    assert_eq!(sanitize("governor@prime#eae7 é"), "governor-prime-eae7--");
    assert_eq!(default_room(), "main");
    assert_eq!(default_rooms(), ["main"]);
    assert_eq!(rand_hex(&vec![0, 255, 16]), "00ff10");
    assert_eq!(derive_sid8(Some("a b c d e f"), None, "r"), "a-b-c-d-");
    assert_eq!(derive_sid8(Some(""), Some("0123456789"), "r"), "01234567");
    assert_eq!(derive_sid8(None, Some("0123456"), "r"), "r");
    assert_eq!(derive_sid8(None, None, "r"), "r");
    assert_eq!(node_file_path("a@b#c", ".json"), "nodes/a-b-c.json");
    assert_eq!(host_name(Some("box\n")), "box");
    assert_eq!(host_name(Some(" ")), "localhost");
    assert_eq!(host_name(None), "localhost");
    assert_eq!(current_user(Some("u\n"), None), "u");
    assert_eq!(current_user(Some(""), Some("v")), "v");
    assert_eq!(current_user(None, None), "root");
}

#[test]
fn identities_are_completed() {
    let mut old = cfg();
    old.id = "governor@prime".to_string();
    old.sid8 = None;
    let c = with_suffix(old, "ffff");
    assert_eq!(c.id, "governor@prime#ffff");
    assert_eq!(c.sid8.as_deref(), Some("ffff"));
    let mut kept = cfg();
    kept.sid8 = None;
    let c = with_suffix(kept, "ffff");
    assert_eq!(c.id, "governor@prime#eae77914");
    assert_eq!(c.sid8.as_deref(), Some("eae77914"));
    let mut named = cfg();
    named.id = "x".to_string();
    assert_eq!(with_suffix(named, "ffff").id, "governor@prime#eae77914");
}

#[test]
fn rooms_are_joined_once() {
    let mut c = cfg();
    assert!(join_room(&mut c, "dev"));
    assert!(!join_room(&mut c, "dev"));
    assert_eq!(c.rooms, ["main", "dev"]);
}

#[test]
fn files_of_a_node() {
    let f = family();
    let plain = Surroundings {
        mesh_home: None,
        home: Some("/h".to_string()),
        session: Some("0123456789".to_string()),
    };
    assert_eq!(base_home(&plain), format!("/h/.{f}/mesh"));
    assert_eq!(session_dir(&plain), format!("/h/.{f}/mesh/sessions/01234567"));
    assert_eq!(config_path(&plain), format!("/h/.{f}/mesh/sessions/01234567/config.json"));
    assert_eq!(seen_path(&plain), format!("/h/.{f}/mesh/sessions/01234567/seen"));
    assert_eq!(key_path(&plain), format!("/h/.{f}/mesh/sessions/01234567/key"));
    assert_eq!(local_bus(&plain), format!("/h/.{f}/mesh/bus"));
    let forced = Surroundings {
        mesh_home: Some("/m".to_string()),
        home: Some("/h".to_string()),
        session: Some("0123456789".to_string()),
    };
    assert_eq!(session_dir(&forced), "/m");
    let bare = Surroundings { mesh_home: None, home: None, session: Some("0123".to_string()) };
    assert_eq!(session_dir(&bare), format!("/root/.{f}/mesh"));
}

#[test]
fn git_calls() {
    let args = vec!["add".to_string(), "x".to_string()];
    let (program, full) = git_command(None, "/r", &args);
    assert_eq!((program, full), ("git", vec!["-C".to_string(), "/r".into(), "add".into(), "x".into()]));
    let (program, full) = git_command(Some("paul"), "/r", &args);
    assert_eq!(program, "sudo");
    assert_eq!(full, ["-u", "paul", "git", "-C", "/r", "add", "x"]);
    assert_eq!(
        commit("n", "m"),
        ["-c", "user.name=n", "-c", "user.email=mesh@plausiden.com", "commit", "-q", "-m", "m"]
    );
    assert!(git_ok(&Ok("x".to_string())));
    assert!(!git_ok(&Err("x".to_string())));
}

// ---- messages -----------------------------------------------------------------

fn msg(id: &str, from: &str, to: &str) -> Message {
    let mut sender = cfg();
    sender.id = from.to_string();
    new_post(&sender, id, "2026-08-07T01:02:03Z", to, "fyi", "subj", None, None, None, "body\n")
}

#[test]
fn posts_are_made() {
    let m = new_post(
        &cfg(),
        "0123456789abcdef",
        "T",
        "all",
        "ask",
        "s",
        Some("r"),
        Some("p"),
        Some("dev"),
        " body \n\n",
    );
    assert_eq!(m.v, 1);
    assert_eq!(m.id, "0123456789abcdef");
    assert_eq!(m.from, "governor@prime#eae77914");
    assert_eq!(m.body, " body");
    assert_eq!(m.room, "dev");
    assert_eq!(m.reference.as_deref(), Some("r"));
    assert_eq!(m.repo.as_deref(), Some("p"));
    assert_eq!(m.ext, "{}");
    assert_eq!(m.sig, None);
    assert_eq!(msg("a", "b", "c").room, "main");
    assert_eq!(
        message_file("S", &cfg(), "0123456789abcdef"),
        "S-governor-prime-eae77914-01234567.json"
    );
    assert_eq!(copy_message(&m).subject, "s");
}

#[test]
fn monitor_messages_are_made() {
    let m = send_from_monitor(&cfg(), "i", "T", "all", "dev", " ", " a\n  b ");
    assert_eq!((m.kind.as_str(), m.ext.as_str()), ("say", "{}"));
    assert_eq!(m.subject, "a b");
    assert_eq!(m.body, "a\n  b");
    assert_eq!(m.room, "dev");
    let mut owner = cfg();
    owner.role = "owner".to_string();
    let m = send_from_monitor(&owner, "i", "T", "all", "dev", " s ", "b");
    assert_eq!((m.kind.as_str(), m.ext.as_str()), ("directive", r#"{"authority":"owner"}"#));
    assert_eq!(m.subject, "s");
    assert_eq!(send_from_monitor(&owner, "i", "T", "all", "dev", "", " ").subject, "(message)");
    let long = "word ".repeat(30);
    assert_eq!(
        send_from_monitor(&owner, "i", "T", "all", "dev", "", &long).subject.chars().count(),
        60
    );
}

#[test]
fn messages_are_ordered_and_kept_once() {
    let mut a = msg("2", "x", "all");
    let b = msg("1", "x", "all");
    let mut again = msg("1", "x", "all");
    again.subject = "late".to_string();
    assert!(is_earlier(&b, &a));
    assert!(!is_earlier(&a, &b));
    assert!(!is_earlier(&a, &a));
    a.ts = "2026-08-06T00:00:00Z".to_string();
    assert!(is_earlier(&a, &b));
    let v = sorted_msgs(&vec![b, a, again]);
    let ids: Vec<(String, String)> = v.iter().map(|m| (m.id.clone(), m.subject.clone())).collect();
    assert_eq!(
        ids,
        [("2".to_string(), "subj".to_string()), ("1".to_string(), "subj".to_string())]
    );
    assert_eq!(sort_messages(&v).len(), 2);
}

#[test]
fn messages_are_delivered() {
    let c = cfg();
    for to in ["governor@prime#eae77914", "all", "role:governor", "governor@prime"] {
        assert!(addressed_to_me(&msg("1", "x", to), &c), "{to}");
    }
    for to in ["governor", "role:other", "governor@prime#0", ""] {
        assert!(!addressed_to_me(&msg("1", "x", to), &c), "{to}");
    }
    assert!(names_me(&msg("1", "x", "governor@prime"), &c));
    assert!(!names_me(&msg("1", "x", "all"), &c));
    let mut elsewhere = msg("3", "x", "all");
    elsewhere.room = "dev".to_string();
    let mut direct = msg("4", "x", "governor@prime#eae77914");
    direct.room = "dev".to_string();
    let all = vec![
        msg("1", "x", "all"),
        msg("2", "governor@prime#eae77914", "all"),
        elsewhere,
        direct,
        msg("5", "x", "all"),
    ];
    let ids: Vec<String> =
        unread(&all, &c, &vec!["5".to_string()]).into_iter().map(|m| m.id).collect();
    assert_eq!(ids, ["1", "4"]);
    let dev: Vec<String> =
        filter_rooms(&all, &vec!["dev".to_string()]).into_iter().map(|m| m.id).collect();
    assert_eq!(dev, ["3", "4"]);
    assert_eq!(wanted_rooms(Some("x"), &c), ["x"]);
    assert_eq!(wanted_rooms(None, &c), ["main"]);
    assert_eq!(find_message(&all, "4").unwrap().id, "4");
    assert!(find_message(&all, "9").is_none());
    assert_eq!(find_message(&all, "").unwrap().id, "1");
}

#[test]
fn seen_messages_are_kept() {
    assert_eq!(load_seen(" b \na\nb\n"), ["b", "a", "b"]);
    assert!(load_seen("").is_empty());
    let seen = load_seen("b\n");
    let text = mark_seen(&seen, &vec!["c".to_string(), "a".to_string()]).unwrap();
    assert_eq!(text, "a\nb\nc\n");
    assert_eq!(load_seen(&text), ["a", "b", "c"]);
    assert_eq!(mark_seen(&seen, &vec!["b".to_string()]), None);
}

// ---- delivery -----------------------------------------------------------------

#[test]
fn deliveries_go_step_by_step() {
    assert_eq!(first_step(true), Step::Done(Delivery::OnDiskOnly));
    assert_eq!(first_step(false), Step::Add);
    assert_eq!(next_step(Step::Add, true), Step::Commit);
    assert_eq!(next_step(Step::Add, false), Step::Done(Delivery::OnDiskOnly));
    assert_eq!(next_step(Step::Commit, true), Step::Push);
    assert_eq!(next_step(Step::Commit, false), Step::Done(Delivery::OnDiskOnly));
    assert_eq!(next_step(Step::Push, true), Step::Done(Delivery::Pushed));
    assert_eq!(next_step(Step::Push, false), Step::Done(Delivery::Committed));
    let f = family();
    assert_eq!(
        delivery_status(Delivery::OnDiskOnly),
        format!("readable on this host but NOT committed — run: {f}-mesh sync")
    );
    assert_eq!(
        delivery_status(Delivery::Committed),
        format!("committed locally, not pushed — run: {f}-mesh sync")
    );
    assert_eq!(
        post_report("0123456789", "all", true, Delivery::OnDiskOnly),
        "posted 01234567 -> all (local only)"
    );
    assert_eq!(
        post_report("0123456789", "all", false, Delivery::Pushed),
        "posted 01234567 -> all (pushed)"
    );
}

#[test]
fn sync_reports() {
    assert_eq!(sync_report(true, 2, true, None, None), "sync: pull ok · swept 2 · push ok");
    assert_eq!(
        sync_report(false, 2, false, Some("a\nfatal: 403"), Some("1 x\n\n2 y\n")),
        "sync: pull skip · swept 0 · push FAILED (2 local commit(s) still unsent) — fatal: 403"
    );
    assert_eq!(
        sync_report(true, 0, false, Some("no remote"), None),
        "sync: pull ok · swept 0 · push FAILED (no upstream branch) — no remote"
    );
    assert_eq!(first_line("a\nb\n"), "b");
    assert_eq!(first_line(""), "");
    assert_eq!(first_line(&"x".repeat(200)).len(), 160);
    assert_eq!(count_filled("a\n \nb"), 2);
    assert_eq!(sweep_message(3), "mesh: sweep 3 uncommitted file(s)");
}

// ---- signing ------------------------------------------------------------------

fn seed(b: u8) -> Vec<u8> {
    vec![b; 32]
}

fn record(key: &str) -> String {
    format!(r#"{{"id":"x","pubkey":"{key}"}}"#)
}

#[test]
fn signatures_are_checked() {
    let m = sign(msg("1", "x", "all"), &seed(7));
    let sig = m.sig.clone().unwrap();
    assert_eq!(sig.len(), 128);
    let key = pubkey_hex(&seed(7));
    assert_eq!(verify_state(&m, Some(&record(&key))), "verified");
    assert_eq!(verify_state(&m, Some(&record(&key.to_uppercase()))), "verified");
    assert_eq!(verify_state(&m, Some(&record(&pubkey_hex(&seed(8))))), "FORGED");
    assert_eq!(verify_state(&m, None), "unverified");
    assert_eq!(verify_state(&m, Some("not json")), "unverified");
    assert_eq!(verify_state(&m, Some("{}")), "unverified");
    assert_eq!(verify_state(&m, Some(&record("abc"))), "unverified");
    assert_eq!(verify_state(&m, Some(&record("00"))), "unverified");
    assert_eq!(verify_state(&msg("1", "x", "all"), Some(&record(&key))), "unsigned");
    let mut changed = copy_message(&m);
    changed.body = "other".to_string();
    assert_eq!(verify_state(&changed, Some(&record(&key))), "FORGED");
    let mut broken = copy_message(&m);
    broken.sig = Some("zz".to_string());
    assert_eq!(verify_state(&broken, Some(&record(&key))), "FORGED");
    broken.sig = Some(sig[..126].to_string());
    assert_eq!(verify_state(&broken, Some(&record(&key))), "FORGED");
    // The signature is deterministic, and not signed itself.
    assert_eq!(sign(msg("1", "x", "all"), &seed(7)).sig.unwrap(), sig);
    assert_eq!(signable_bytes(&m), signable_bytes(&msg("1", "x", "all")));
}

#[test]
fn keys_are_those_of_the_outside_crate() {
    let sk = ed25519_dalek::SigningKey::from_bytes(&[9u8; 32]);
    assert_eq!(pubkey_hex(&seed(9)), hex::encode(sk.verifying_key().to_bytes()));
    assert_eq!(key_record(&seed(9)), "09".repeat(32));
    assert_eq!(signing_key(&format!(" {}\n", "0A".repeat(32))).unwrap(), vec![10u8; 32]);
    assert_eq!(signing_key("0a"), None);
    assert_eq!(signing_key("zz"), None);
    assert_eq!(signing_key(&key_record(&seed(9))).unwrap(), seed(9));
    assert_eq!(
        node_pubkey(&record(&pubkey_hex(&seed(9)))).unwrap(),
        sk.verifying_key().to_bytes().to_vec()
    );
    let m = sign(msg("1", "x", "all"), &seed(9));
    let expected = ed25519_dalek::Signer::sign(&sk, &signable_bytes(&m));
    assert_eq!(m.sig.unwrap(), hex::encode(expected.to_bytes()));
}

#[test]
fn signed_bytes_are_sorted_json() {
    let mut m = msg("1\"\u{1}é", "x", "all");
    m.repo = Some("r".to_string());
    m.ext = r#"{"authority":"owner"}"#.to_string();
    let mut map = std::collections::BTreeMap::new();
    map.insert("v", serde_json::Value::from(m.v));
    map.insert("id", serde_json::Value::from(m.id.clone()));
    map.insert("from", serde_json::Value::from(m.from.clone()));
    map.insert("to", serde_json::Value::from(m.to.clone()));
    map.insert("ts", serde_json::Value::from(m.ts.clone()));
    map.insert("kind", serde_json::Value::from(m.kind.clone()));
    map.insert("ref", serde_json::Value::Null);
    map.insert("subject", serde_json::Value::from(m.subject.clone()));
    map.insert("body", serde_json::Value::from(m.body.clone()));
    map.insert("repo", serde_json::Value::from("r"));
    map.insert("room", serde_json::Value::from(m.room.clone()));
    map.insert("ext", serde_json::from_str(&m.ext).unwrap());
    assert_eq!(signable_bytes(&m), serde_json::to_vec(&map).unwrap());
}

// ---- presence -----------------------------------------------------------------

#[test]
fn presence() {
    let c = cfg();
    assert_eq!(PRESENCE_TTL_SECS, 900);
    assert_eq!(status_path(&c), "/repo/nodes/governor-prime-eae77914.status");
    assert_eq!(beat_message("n", "online"), "beat n (online)");
    assert!(heartbeat(None));
    assert!(heartbeat(Some(300)));
    assert!(!heartbeat(Some(299)));
    let mut here = new_status(&c, "2026-08-06T23:50:00Z", "online");
    here.rooms = vec!["main".to_string(), "dev".to_string()];
    let left = new_status(&c, "2026-08-06T23:59:00Z", "left");
    let mut idle = new_status(&c, "2026-08-06T23:45:00Z", "online");
    idle.id = "a".to_string();
    let mut odd = new_status(&c, "never", "");
    odd.id = "b".to_string();
    let mut ahead = new_status(&c, "2026-08-07T00:00:30Z", "online");
    ahead.id = "c".to_string();
    let (present, away) = roster(&vec![here, left, idle, odd, ahead], at(NOW));
    assert_eq!(
        present,
        [
            "c                              rooms=[main] seen 0s ago",
            "governor@prime#eae77914        rooms=[main,dev] seen 600s ago",
        ]
    );
    assert_eq!(
        away,
        [
            "a                              rooms=[main] seen 900s ago (idle)",
            "b                              rooms=[main] seen 9223372036854775807s ago (idle)",
            "governor@prime#eae77914        rooms=[main] seen 60s ago (left)",
        ]
    );
    let (p, a) = roster_at(&vec![new_status(&c, "x", "online")], &vec![Some(at(NOW))], at(NOW));
    assert_eq!((p.len(), a.len()), (1, 0));
}

#[test]
fn present_nodes() {
    let rec = |id: &str, seen: &str| format!(r#"{{"id":"{id}","last_seen":"{seen}"}}"#);
    let records = vec![
        rec("b", "2026-08-06T23:50:00Z"),
        rec("a", "2026-08-07T00:00:00Z"),
        rec("b", "2026-08-06T23:51:00Z"),
        rec("old", "2026-08-06T23:45:00Z"),
        rec("future", "2026-08-07T00:00:01Z"),
        r#"{"id":"x"}"#.to_string(),
        "nonsense".to_string(),
    ];
    assert_eq!(present_ids(&records, at(NOW)), ["a", "b"]);
    assert_eq!(present_node(&parse(&records[0]).unwrap(), at(NOW)).unwrap(), "b");
}

#[test]
fn keys_are_shown() {
    let j = parse(r#"{"id":"n","pubkey":"0123456789abcdef0123"}"#).unwrap();
    assert!(key_is_showable(&j));
    assert_eq!(show_key(&j), "  🔑 n                              0123456789abcdef…");
    let j = parse("{}").unwrap();
    assert!(key_is_showable(&j));
    assert_eq!(show_key(&j), "  ·  ?                              (unsigned node)");
    assert!(!key_is_showable(&parse(r#"{"pubkey":"012345678901234é"}"#).unwrap()));
}

// ---- reading ------------------------------------------------------------------

#[test]
fn inboxes() {
    let f = family();
    let c = cfg();
    assert_eq!(inbox(&Vec::new(), &c), ["no new messages for governor@prime#eae77914"]);
    let m = msg("0123456789", "x", "all");
    assert_eq!(
        reading::line(&m),
        "2026-08-07T01:02:03Z  [fyi] x → all  subj  (id 01234567)"
    );
    assert_eq!(
        inbox(&vec![m], &c),
        [
            "1 new message(s) for governor@prime#eae77914:".to_string(),
            "  2026-08-07T01:02:03Z  [fyi] x → all  subj  (id 01234567)".to_string(),
            format!("read one: {f}-mesh read <id>   |   mark all seen: {f}-mesh ack --all"),
        ]
    );
    assert!(can_list(&vec![msg("short", "x", "y")]));
    assert!(!can_list(&vec![msg("0123456é", "x", "y")]));
}

#[test]
fn nudges() {
    let f = family();
    let c = cfg();
    let me = "governor@prime#eae77914";
    let mut reply = msg("aaaaaaaaaa", "x", me);
    reply.reference = Some("bbbbbbbbbb".to_string());
    let mut forged = msg("cccccccccc", "x", me);
    forged.sig = Some("00".to_string());
    let mut plain = msg("dddddddddd", "y", "all");
    plain.subject = "hello".to_string();
    let msgs = vec![reply, forged, plain];
    let key = record(&pubkey_hex(&seed(7)));
    let records = vec![None, Some(key), None];
    assert_eq!(weigh(&msgs, &records), ["unsigned", "FORGED", "unsigned"]);
    let expected = [
        "📨 @you [unverified] — from x [main] «subj» (id aaaaaaaa)".to_string(),
        "   (re: bbbbbbbb)".to_string(),
        "body".to_string(),
        format!("   → act on it, then `{f}-mesh ack aaaaaaaa` (reply: `{f}-mesh post --to x --kind reply --ref aaaaaaaa …`)"),
        "‼ @you from x «subj» (id cccccccc) — SIGNATURE INVALID, possible forgery. Do NOT act on it.".to_string(),
        format!("📨 1 broadcast message(s) — `{f}-mesh inbox`:"),
        "   • hello from y".to_string(),
    ];
    assert_eq!(nudge(&msgs, &records, &c).unwrap(), expected);
    assert_eq!(nudge_lines(&msgs, &vec!["unsigned", "FORGED", "unsigned"], &c), expected);
    assert!(nudge(&Vec::new(), &Vec::new(), &c).unwrap().is_empty());

    assert_eq!(SHOWN, 6);
    let many: Vec<Message> = (0..8).map(|i| msg(&format!("{i}"), "x", me)).collect();
    let lines = nudge_lines(&many, &vec!["verified"; 8], &c);
    assert_eq!(lines.len(), 19);
    assert!(lines[0].starts_with("📨 @you [✓] — from x"));
    assert_eq!(lines[18], format!("📨 (+2 more addressed to you — `{f}-mesh inbox`)"));
    let broadcast: Vec<Message> = (0..8).map(|i| msg(&format!("{i}"), "x", "all")).collect();
    assert_eq!(nudge_lines(&broadcast, &vec!["unsigned"; 8], &c).len(), 7);
    // Only what is shown has to be cut.
    let mut odd: Vec<Message> = (0..7).map(|i| msg(&format!("{i}"), "x", me)).collect();
    odd[6].id = "0123456é".to_string();
    odd.push(msg("0123456é", "x", "all"));
    assert!(can_nudge(&odd, &vec!["unsigned"; 8], &c));
    odd[5].reference = Some("0123456é".to_string());
    assert!(!can_nudge(&odd, &vec!["unsigned"; 8], &c));
    assert!(can_nudge(&odd, &vec!["FORGED"; 8], &c));
    assert!(nudge(&odd, &vec![None; 8], &c).is_none());
}

#[test]
fn logs() {
    let f = family();
    let mut a = msg("0123456789", "x", "all");
    a.reference = Some("abcdefghij".to_string());
    a.body = "b".repeat(401);
    let plain = style(false);
    let lines = log(&vec![a], &vec![None], 9, &vec!["main".to_string()], 0, false, &plain);
    assert_eq!(lines[0], "── [main] · 1 of 9 · 100 cols ──");
    assert_eq!(lines[1], "");
    assert_eq!(lines[2], "x 01:02 · main → all ");
    assert_eq!(lines[3], "  subj");
    assert_eq!(lines[4], "  ↩ re abcdef");
    assert_eq!(lines[5], format!("  {}", "b".repeat(98)));
    assert_eq!(lines[9], format!("  {}…", "b".repeat(8)));
    assert_eq!(lines[10], format!("  (full: mesh --full-context, or {f}-mesh read 01234567)"));
    assert_eq!(lines[11], "");
    assert_eq!(lines.len(), 12);
    let mut b = msg("1", "x", "all");
    b.ts = "short".to_string();
    let tty = style(true);
    let lines =
        log_lines(&vec![b], &vec!["verified"], 1, &vec!["main".to_string()], 9, true, &tty);
    assert_eq!(lines[0], "\x1b[2m── [main] · 1 of 1 · 32 cols · full ──\x1b[0m");
    assert_eq!(
        lines[2],
        format!("{}x\x1b[0m \x1b[2mshort · main → all\x1b[0m \x1b[32m✓\x1b[0m", sender_color("x"))
    );
    assert_eq!(lines[3], "\x1b[1m  subj\x1b[0m");
    let mut odd = msg("0123456é", "x", "all");
    assert!(can_log(&vec![copy_message(&odd)], false));
    odd.body = "b".repeat(401);
    assert!(!can_log(&vec![copy_message(&odd)], false));
    assert!(can_log(&vec![copy_message(&odd)], true));
    odd.reference = Some("01234é".to_string());
    assert!(!can_log(&vec![odd], true));
}

#[test]
fn readers_helpers() {
    assert_eq!(hash_name(""), 0);
    assert_eq!(hash_name("ab"), 97 * 31 + 98);
    // 120 % 6 == 0
    assert_eq!(sender_color("x"), "\x1b[1;36m");
    assert_eq!(sender_color("y"), "\x1b[1;32m");
    assert_eq!(show_excerpt("abc", false, 2), "ab…");
    assert_eq!(show_excerpt("abc", true, 2), "abc");
    assert_eq!(show_excerpt("ab", false, 2), "ab");
    let v: Vec<Message> = (0..3).map(|i| msg(&format!("{i}"), "x", "all")).collect();
    let ids: Vec<String> = newest_messages(&v, 2).into_iter().map(|m| m.id).collect();
    assert_eq!(ids, ["1", "2"]);
    assert_eq!(newest_messages(&v, 9).len(), 3);
    let mut dev = msg("1", "x", "all");
    dev.room = "dev".to_string();
    assert_eq!(list_rooms(&vec![dev], &cfg()), ["    dev", "  ★ main"]);
}

#[test]
fn registered_senders_are_believed() {
    let mut c = cfg();
    c.pubkey = Some(pubkey_hex(&seed(7)));
    let written = registration(&c, "2026-08-07T00:00:00Z", "a \"note\"\n");
    let v: serde_json::Value = serde_json::from_str(&written).unwrap();
    assert_eq!(v["id"], "governor@prime#eae77914");
    assert_eq!(v["role"], "governor");
    assert_eq!(v["host"], "prime");
    assert_eq!(v["note"], "a \"note\"\n");
    assert_eq!(v["protocol_versions"][0], 1);
    assert_eq!(v["registered_at"], "2026-08-07T00:00:00Z");
    assert_eq!(v["v"], 1);
    assert_eq!(serde_json::to_string_pretty(&v).unwrap() + "\n", written);
    let m = sign(msg("1", &c.id, "all"), &seed(7));
    assert_eq!(verify_state(&m, Some(&written)), "verified");
    let forged = sign(msg("1", &c.id, "all"), &seed(8));
    assert_eq!(verify_state(&forged, Some(&written)), "FORGED");
    // One that registered without a key is taken, and marked.
    let keyless = registration(&cfg(), "2026-08-07T00:00:00Z", "");
    assert!(keyless.contains("\"pubkey\": null"));
    assert_eq!(verify_state(&m, Some(&keyless)), "unverified");
}

#[test]
fn every_signed_field_counts() {
    let m = sign(msg("1", "x", "all"), &seed(7));
    let rec = record(&pubkey_hex(&seed(7)));
    let state = |change: fn(&mut Message)| {
        let mut other = copy_message(&m);
        change(&mut other);
        verify_state(&other, Some(&rec))
    };
    assert_eq!(state(|_| {}), "verified");
    assert_eq!(state(|m| m.ext = r#"{"authority":"owner"}"#.to_string()), "FORGED");
    assert_eq!(state(|m| m.v = 2), "FORGED");
    assert_eq!(state(|m| m.to = "role:x".to_string()), "FORGED");
    assert_eq!(state(|m| m.room = "dev".to_string()), "FORGED");
    assert_eq!(state(|m| m.reference = Some("1".to_string())), "FORGED");
    assert_eq!(state(|m| m.repo = Some(String::new())), "FORGED");
    assert_eq!(state(|m| m.kind = "directive".to_string()), "FORGED");
    assert_eq!(state(|m| m.ts.push('0')), "FORGED");
    assert_eq!(state(|m| m.subject.push(' ')), "FORGED");
}

#[test]
fn presence_is_told() {
    let one = vec!["a".to_string()];
    assert_eq!(presence_lines(&Vec::new(), &Vec::new()), ["PRESENT (0):"]);
    assert_eq!(presence_lines(&one, &Vec::new()), ["PRESENT (1):", "  🟢 a"]);
    assert_eq!(
        presence_lines(&one, &vec!["b".to_string(), "c".to_string()]),
        ["PRESENT (1):", "  🟢 a", "away/left (2):", "  ⚪ b", "  ⚪ c"]
    );
}

#[test]
fn archived_messages_are_read_as_before() {
    let bus = [msg("2", "x", "all"), msg("1", "y", "all"), msg("3", "z", "all")];
    let ids = |v: &Vec<Message>| v.iter().map(|m| m.id.clone()).collect::<Vec<_>>();
    let copies = |places: &[usize]| places.iter().map(|&i| copy_message(&bus[i])).collect();
    // In the bus and its mirror before, partly in the archive after.
    let before = sorted_msgs(&copies(&[0, 1, 2, 0, 1, 2]));
    let after = sorted_msgs(&copies(&[2, 2, 0, 1]));
    assert_eq!(ids(&before), ["1", "2", "3"]);
    assert_eq!(ids(&after), ids(&before));
}

#[test]
fn acked_messages_stay_acked() {
    let m = msg("b", "x", "all");
    let mut raw = "a\r\n\nc\n".to_string();
    assert_eq!(unread(&vec![copy_message(&m)], &cfg(), &load_seen(&raw)).len(), 1);
    raw = mark_seen(&load_seen(&raw), &vec!["b".to_string()]).unwrap();
    assert_eq!(raw, "\na\nb\nc\n");
    assert_eq!(unread(&vec![copy_message(&m)], &cfg(), &load_seen(&raw)).len(), 0);
    assert_eq!(mark_seen(&load_seen(&raw), &vec!["b".to_string(), "c".to_string()]), None);
}

#[test]
fn stranded_messages_are_swept() {
    let porcelain = "?? bus/20260807T000000Z-peer-abc.json\n M README.md\n?? nodes/peer.json\n";
    assert!(regular_status(porcelain));
    assert_eq!(
        pending_mesh_paths(porcelain, "governor-prime-eae77914"),
        ["bus/20260807T000000Z-peer-abc.json"]
    );
}
