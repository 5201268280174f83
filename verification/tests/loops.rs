use claude_tools::clock::{moment_at, Moment};
use claude_tools::loops::files::{
    disabled_path, history_lock, history_path, loop_ckpt_root, loop_label_dir, paused_lock,
    paused_path, sanitize_label, sentinel_config_path, state_dir,
};
use claude_tools::loops::interval::{interval_to_cron, refusal_message, IntervalError};
use claude_tools::loops::journal::{
    can_fire, checkpoint, clears_marker, entry_line, entrypoint, event_age, guard, guard_decision,
    index_rows, last_event_line, new_halt, stop, watchdog, watchdog_at_age, watchdog_stuck, Entry,
    GuardOutcome, LoopEvent, CRASHED_REASON, DISABLED_REASON, HALTED_REASON, INDEX_HEADER,
};
use claude_tools::loops::pause::{
    default_recurring, history_tail, pause, recent_lines, resume, CronListEntry, InflightTask,
    PausedJob,
};
use claude_tools::loops::prompt::{
    add_canary, already_guarded, already_prepped, guard_block, has_canary, infer_label,
    inject_guard, inject_self_check, prep, CANARY, SELF_CHECK_PREAMBLE,
};
use claude_tools::package::NAME;

fn family() -> &'static str {
    NAME.split('_').next().unwrap()
}

// ---- intervals --------------------------------------------------------------

#[test]
fn interval_5m() {
    assert_eq!(interval_to_cron("5m").unwrap(), "*/5 * * * *");
}

#[test]
fn interval_2h() {
    assert_eq!(interval_to_cron("2h").unwrap(), "0 */2 * * *");
}

#[test]
fn interval_1d() {
    assert_eq!(interval_to_cron("1d").unwrap(), "0 0 */1 * *");
}

#[test]
fn interval_60m_rounds_to_1h() {
    assert_eq!(interval_to_cron("60m").unwrap(), "0 */1 * * *");
}

#[test]
fn interval_120m_to_2h() {
    assert_eq!(interval_to_cron("120m").unwrap(), "0 */2 * * *");
}

#[test]
fn intervals_at_their_edges() {
    assert_eq!(interval_to_cron("0m").unwrap(), "*/0 * * * *");
    assert_eq!(interval_to_cron("59m").unwrap(), "*/59 * * * *");
    assert_eq!(interval_to_cron("90m").unwrap(), "0 */1 * * *");
    assert_eq!(interval_to_cron("23h").unwrap(), "0 */23 * * *");
    assert_eq!(interval_to_cron("400d").unwrap(), "0 0 */400 * *");
    assert_eq!(interval_to_cron("7s").unwrap(), "*/1 * * * *");
    assert_eq!(interval_to_cron("+5m").unwrap(), "*/5 * * * *");
    assert_eq!(interval_to_cron("007m").unwrap(), "*/7 * * * *");
}

#[test]
fn refused_intervals() {
    assert_eq!(interval_to_cron("m"), Err(IntervalError::NotNumeric));
    assert_eq!(interval_to_cron(""), Err(IntervalError::NotNumeric));
    assert_eq!(interval_to_cron("-5m"), Err(IntervalError::NotNumeric));
    assert_eq!(interval_to_cron("1.5h"), Err(IntervalError::NotNumeric));
    assert_eq!(interval_to_cron("18446744073709551616m"), Err(IntervalError::NotNumeric));
    assert_eq!(interval_to_cron("300m"), Err(IntervalError::Uneven));
    assert_eq!(interval_to_cron("24h"), Err(IntervalError::UnsupportedUnit));
    assert_eq!(interval_to_cron("5w"), Err(IntervalError::UnsupportedUnit));
    assert_eq!(interval_to_cron("55"), Err(IntervalError::UnsupportedUnit));
    assert_eq!(
        refusal_message(IntervalError::NotNumeric, "xm"),
        "interval prefix not numeric: xm"
    );
    assert_eq!(
        refusal_message(IntervalError::Uneven, "300m"),
        "interval 300m doesn't cleanly divide hours"
    );
    assert_eq!(
        refusal_message(IntervalError::UnsupportedUnit, "5w"),
        "unsupported interval unit in 5w"
    );
}

// ---- prompts ----------------------------------------------------------------

#[test]
fn canary_detects_standard_line() {
    assert!(has_canary(
        "do stuff. if you canceled or stopped this loop, you should NOT be seeing this message."
    ));
}

#[test]
fn canary_absent_on_bare_prompt() {
    assert!(!has_canary("do stuff every 5 minutes"));
}

#[test]
fn canary_is_added_once() {
    let (once, added) = add_canary("do stuff");
    assert!(added);
    assert_eq!(once, format!("do stuff{CANARY}"));
    let (twice, again) = add_canary(&once);
    assert!(!again);
    assert_eq!(twice, once);
    // Letters outside ASCII whose lower case is ASCII count as well.
    assert!(has_canary("CANCEL: you SHOULD NOT \u{17f}ee, SEE \u{212a}"));
}

#[test]
fn infer_label_truncates_to_60() {
    let s = "a".repeat(100);
    assert_eq!(infer_label(&s).len(), 60);
}

#[test]
fn infer_label_first_sentence() {
    assert_eq!(infer_label("First. Second."), "First");
}

#[test]
fn infer_label_stops_at_a_line_end() {
    assert_eq!(infer_label("one\ntwo. three"), "one");
    assert_eq!(infer_label(""), "");
    assert_eq!(infer_label(&"é".repeat(61)), "é".repeat(60));
}

#[test]
fn prep_injects_when_absent() {
    let out = inject_self_check("draft the next page every 30m");
    assert!(out.starts_with("THIS IS A SCHEDULED LOOP"));
    assert!(out.contains("draft the next page every 30m"));
}

#[test]
fn prep_idempotent_when_present() {
    let already = "THIS IS A SCHEDULED LOOP — self-check.\n\ndo the thing";
    assert_eq!(inject_self_check(already), already);
}

#[test]
fn prep_detects_declaration_case_insensitively() {
    assert!(already_prepped("this is a scheduled loop, continue"));
    assert!(!already_prepped("a normal prompt"));
}

#[test]
fn inject_guard_is_idempotent() {
    let p = "do the work";
    let once = inject_guard(p, "demo");
    assert!(once.contains(&format!("{}-loop guard --label demo", family())));
    assert!(once.contains("CronDelete this job and STOP"));
    assert_eq!(inject_guard(&once, "demo"), once); // no double-inject
}

#[test]
fn guard_block_holds_both_commands() {
    let b = guard_block("x y");
    let f = family();
    assert!(b.starts_with(&format!(
        "LOOP CRASH-GUARD + PER-ITERATION CHECKPOINTING (enforced):\n- STEP 0 (before anything else): run `{f}-loop guard --label x y`. If it prints \"action\":\"halt\" OR"
    )));
    assert!(b.ends_with(&format!(
        "into `{f}-loop checkpoint --label x y --note \"<one line: what changed>\"`. State is saved ADDITIVELY every iteration; never skip it.\n"
    )));
    assert!(already_guarded(&b));
    assert_eq!(inject_guard("p", "l"), format!("{}\np", guard_block("l")));
}

#[test]
fn prepared_prompts_stay_as_they_are() {
    assert_eq!(prep(" \n", None), None);
    assert_eq!(prep("", Some("l")), None);
    let plain = prep("  work \n", None).unwrap();
    assert_eq!(plain, format!("{SELF_CHECK_PREAMBLE}\n\nwork"));
    assert_eq!(prep(&plain, None).unwrap(), plain);
    let labelled = prep("work", Some("l")).unwrap();
    assert_eq!(labelled, format!("{}\n{SELF_CHECK_PREAMBLE}\n\nwork", guard_block("l")));
    assert_eq!(prep(&labelled, Some("other")).unwrap(), labelled);
    assert_eq!(prep(&labelled, None).unwrap(), labelled);
}

// ---- the files of a loop ----------------------------------------------------

#[test]
fn sanitize_label_blocks_traversal() {
    // Slashes map to '_', so the result is a single, contained component.
    assert_eq!(sanitize_label("../../etc/passwd"), ".._.._etc_passwd");
    assert_eq!(sanitize_label("ok.label-1_2"), "ok.label-1_2");
    assert_eq!(sanitize_label(""), "loop");
    // A standalone "." / ".." component would still escape → collapsed.
    assert_eq!(sanitize_label(".."), "loop");
    assert_eq!(sanitize_label("."), "loop");
}

#[test]
fn labels_stay_inside_their_directory() {
    for label in ["..", "/", "a/../b", "é", "", "...", "a b"] {
        let once = sanitize_label(label);
        assert!(!once.contains('/') && once != "." && once != ".." && !once.is_empty());
        assert_eq!(sanitize_label(&once), once);
        assert_eq!(loop_label_dir("/s", label), format!("/s/.loop-checkpoints/{once}"));
    }
}

#[test]
fn files_of_the_state_directory() {
    assert_eq!(state_dir(Some("/x"), None).unwrap(), "/x");
    assert_eq!(state_dir(None, Some("/home/u")).unwrap(), format!("/home/u/.{}", family()));
    assert_eq!(state_dir(None, None), None);
    assert_eq!(paused_path("/x"), "/x/.paused-loops.json");
    assert_eq!(history_path("/x"), "/x/loop-history.jsonl");
    assert_eq!(paused_lock("/x"), "/x/.paused-loops.lock");
    assert_eq!(history_lock("/x/"), "/x/loop-history.lock");
    assert_eq!(loop_ckpt_root("/x"), "/x/.loop-checkpoints");
    assert_eq!(disabled_path("/x", "a/b"), "/x/.loop-checkpoints/a_b/DISABLED");
    assert_eq!(sentinel_config_path("/x"), "/x/.sentinel.json");
}

// ---- the crash guard --------------------------------------------------------

fn ev(event: &str, iter: u64) -> LoopEvent {
    LoopEvent {
        event: event.to_string(),
        iter,
        at: None,
    }
}

#[test]
fn watchdog_flags_stale_unmatched_start() {
    // A "start" older than the max age = a fire that began but never finished.
    assert!(watchdog_stuck(Some(&ev("start", 4)), 2000, 1800));
}

#[test]
fn watchdog_ignores_recent_start() {
    // A "start" within the window is a normal in-progress fire, not stuck.
    assert!(!watchdog_stuck(Some(&ev("start", 4)), 30, 1800));
}

#[test]
fn watchdog_ignores_completed_and_empty() {
    // A clean "done" (even if old) is not stuck; neither is an empty journal.
    assert!(!watchdog_stuck(Some(&ev("done", 4)), 999999, 1800));
    assert!(!watchdog_stuck(Some(&ev("halt", 4)), 999999, 1800));
    assert!(!watchdog_stuck(None, 999999, 1800));
}

#[test]
fn watchdog_limit_is_passed() {
    assert!(!watchdog_stuck(Some(&ev("start", 1)), 1800, 1800));
    assert!(watchdog_stuck(Some(&ev("start", 1)), 1801, 1800));
    assert!(!watchdog_stuck(Some(&ev("start", 1)), i64::MAX, u64::MAX));
    assert!(!watchdog_stuck(Some(&ev("start", 1)), -5, 0));
    assert!(!watchdog_stuck(Some(&ev("start", 1)), i64::MAX, i64::MAX as u64));
}

#[test]
fn guard_fresh_journal_continues_at_iter_1() {
    let o = guard_decision(None, false);
    assert_eq!(
        o,
        GuardOutcome {
            halt: false,
            iter: 1,
            log_reset: false
        }
    );
}

#[test]
fn guard_after_done_continues_next_iter() {
    let o = guard_decision(Some(&ev("done", 3)), false);
    assert!(!o.halt);
    assert_eq!(o.iter, 4);
}

#[test]
fn guard_unmatched_start_halts() {
    // The core stop-on-API-error rule: a "start" with no "done" means the
    // previous fire died mid-flight.
    let o = guard_decision(Some(&ev("start", 5)), false);
    assert!(o.halt);
    assert_eq!(o.iter, 5);
}

#[test]
fn guard_reset_resumes_from_open_start() {
    let o = guard_decision(Some(&ev("start", 5)), true);
    assert!(!o.halt);
    assert_eq!(o.iter, 6);
    assert!(o.log_reset);
}

#[test]
fn guard_stays_halted_without_reset() {
    let o = guard_decision(Some(&ev("halt", 2)), false);
    assert!(o.halt);
    assert_eq!(o.iter, 2);
}

#[test]
fn guard_reset_clears_halt() {
    let o = guard_decision(Some(&ev("halt", 2)), true);
    assert!(!o.halt);
    assert_eq!(o.iter, 3);
    assert!(o.log_reset);
}

#[test]
fn guard_goes_on_after_other_events() {
    for event in ["reset", "noise", ""] {
        assert_eq!(
            guard_decision(Some(&ev(event, 7)), true),
            GuardOutcome { halt: false, iter: 8, log_reset: false }
        );
    }
}

fn line_of(e: &Entry) -> serde_json::Value {
    serde_json::from_str(&entry_line(e)).unwrap()
}

fn event_of(v: &serde_json::Value) -> LoopEvent {
    LoopEvent {
        event: v["event"].as_str().unwrap().to_string(),
        iter: v["iter"].as_u64().unwrap(),
        at: v["at"].as_str().map(str::to_string),
    }
}

#[test]
fn guard_plans() {
    let p = guard(None, false, false, "l\"1", "NOW");
    assert!(!p.stopped);
    assert_eq!(p.entries.len(), 1);
    assert_eq!(entry_line(&p.entries[0]), r#"{"at":"NOW","event":"start","iter":1}"#);
    assert_eq!((p.status.as_str(), p.iter), ("running", 1));
    assert_eq!(p.detail, "iteration 1 started");
    assert_eq!(p.report, r#"{"action":"continue","iter":1,"label":"l\"1"}"#);

    let p = guard(Some(&ev("start", 4)), false, false, "l", "NOW");
    assert!(p.stopped);
    assert_eq!(p.entries.len(), 1);
    let v = line_of(&p.entries[0]);
    assert_eq!(v["event"], "halt");
    assert_eq!(v["iter"], 4);
    assert_eq!(v["reason"], CRASHED_REASON);
    assert_eq!((p.status.as_str(), p.iter, p.detail.as_str()), ("HALTED", 4, CRASHED_REASON));
    assert_eq!(
        p.report,
        format!(r#"{{"action":"halt","iter":4,"label":"l","reason":"{CRASHED_REASON}"}}"#)
    );

    let p = guard(Some(&ev("halt", 4)), false, false, "l", "NOW");
    assert!(p.stopped && p.entries.is_empty());
    assert_eq!(p.detail, HALTED_REASON);

    let p = guard(Some(&ev("halt", 4)), false, true, "l", "NOW");
    assert!(!p.stopped);
    assert_eq!(entry_line(&p.entries[0]), r#"{"at":"NOW","event":"reset","iter":4}"#);
    assert_eq!(entry_line(&p.entries[1]), r#"{"at":"NOW","event":"start","iter":5}"#);

    let p = guard(Some(&ev("done", 9)), true, false, "l", "NOW");
    assert!(p.stopped && p.entries.is_empty());
    assert_eq!((p.status.as_str(), p.iter, p.detail.as_str()), ("HALTED", 9, DISABLED_REASON));
    assert_eq!(
        p.report,
        format!(r#"{{"action":"halt","label":"l","reason":"{DISABLED_REASON}"}}"#)
    );
    assert!(clears_marker(true, true));
    assert!(!clears_marker(false, true));
    assert!(!clears_marker(true, false));
}

#[test]
fn reasons_are_spelled_out() {
    assert_eq!(
        DISABLED_REASON,
        "loop DISABLED by the watchdog (a prior fire was blocked/crashed) — re-arm with --reset"
    );
    assert_eq!(
        HALTED_REASON,
        "loop is HALTED from a prior crash and was not re-armed (pass --reset to resume)"
    );
    assert_eq!(
        CRASHED_REASON,
        "previous iteration started but never completed — likely an API error / crash mid-fire"
    );
}

#[test]
fn journal_lines() {
    let e = new_halt("T", 3, "why \"so\"\n");
    assert_eq!(
        entry_line(&e),
        r#"{"at":"T","event":"halt","iter":3,"reason":"why \"so\"\n"}"#
    );
    let done = Entry {
        event: "done".to_string(),
        at: "T".to_string(),
        iter: 2,
        note: Some(None),
        reason: None,
    };
    assert_eq!(entry_line(&done), r#"{"at":"T","event":"done","iter":2,"note":null}"#);
    let noted = Entry { note: Some(Some("n".to_string())), ..done };
    assert_eq!(entry_line(&noted), r#"{"at":"T","event":"done","iter":2,"note":"n"}"#);
    assert_eq!(last_event_line("a\nb\n \n\n").unwrap(), "b");
    assert_eq!(last_event_line("a\r\n").unwrap(), "a");
    assert_eq!(last_event_line(" \n\t"), None);
    assert_eq!(last_event_line(""), None);
    let s = stop("T", 3, "why");
    assert_eq!(entry_line(&s.entry), r#"{"at":"T","event":"halt","iter":3,"reason":"why"}"#);
    assert_eq!(s.marker, "why\n");
}

fn at(secs: i64) -> Moment {
    moment_at(secs).unwrap()
}

#[test]
fn added_entries_are_read_back() {
    let e = Entry {
        event: "do\"ne".to_string(),
        at: "T\r\n".to_string(),
        iter: 7,
        note: Some(Some("line\nline\u{7f}\u{2028}".to_string())),
        reason: Some("a\\b\t\u{1}".to_string()),
    };
    let l = entry_line(&e);
    let journal = format!("{{\"event\":\"start\"}}\n{l}\n");
    assert_eq!(last_event_line(&journal).unwrap(), l);
    let v: serde_json::Value = serde_json::from_str(&l).unwrap();
    assert_eq!(v["event"], "do\"ne");
    assert_eq!(v["at"], "T\r\n");
    assert_eq!(v["iter"], 7);
    assert_eq!(v["note"], "line\nline\u{7f}\u{2028}");
    assert_eq!(v["reason"], "a\\b\t\u{1}");
    assert_eq!(serde_json::to_string(&v).unwrap(), l);
}

#[test]
fn watchdog_ages_events() {
    // 2026-08-07T00:00:00Z
    let now = at(1_786_060_800);
    let mut e = ev("start", 4);
    assert_eq!(event_age(Some(&e), now), 0);
    e.at = Some("2026-08-06T23:00:00Z".to_string());
    assert_eq!(event_age(Some(&e), now), 3600);
    e.at = Some("2026-08-07T01:00:00+02:00".to_string());
    assert_eq!(event_age(Some(&e), now), 3600);
    e.at = Some("2026-08-07T00:00:10.5Z".to_string());
    assert_eq!(event_age(Some(&e), now), -10);
    e.at = Some("yesterday".to_string());
    assert_eq!(event_age(Some(&e), now), 0);
    assert_eq!(event_age(None, now), 0);
}

#[test]
fn watchdog_reports() {
    let now = at(1_786_060_800);
    let mut e = ev("start", 4);
    e.at = Some("2026-08-06T23:00:00Z".to_string());
    let w = watchdog(Some(&e), false, now, 1800, "l");
    let reason = "watchdog: fire iter 4 started 3600s ago and never completed (> 1800s) — agent blocked/crashed; loop DISABLED locally";
    assert_eq!(w.stop, Some((4, reason.to_string())));
    assert_eq!(
        w.report,
        format!(r#"{{"age_secs":3600,"iter":4,"label":"l","reason":"{reason}","status":"DISABLED"}}"#)
    );
    let w = watchdog(Some(&e), false, now, 3600, "l");
    assert_eq!(w.stop, None);
    assert_eq!(w.report, r#"{"age_secs":3600,"label":"l","status":"healthy"}"#);
    let w = watchdog(Some(&e), true, now, 1, "l");
    assert_eq!(w.stop, None);
    assert_eq!(w.report, r#"{"label":"l","status":"already-disabled"}"#);
    let w = watchdog_at_age(Some(&ev("done", 4)), false, 99, 1, "l");
    assert_eq!(w.stop, None);
}

// ---- checkpoints ------------------------------------------------------------

#[test]
fn checkpoint_cycle_is_additive_and_tracks_state() {
    let mut journal = String::new();
    let mut names: Vec<String> = Vec::new();
    // Two clean fires.
    for note in ["first", "second"] {
        let last = last_event_line(&journal).map(|l| event_of(&serde_json::from_str(&l).unwrap()));
        let plan = guard(last.as_ref(), false, false, "t", "T");
        assert!(!plan.stopped);
        for e in &plan.entries {
            journal.push_str(&entry_line(e));
            journal.push('\n');
        }
        let last = last_event_line(&journal).map(|l| event_of(&serde_json::from_str(&l).unwrap()));
        let c = checkpoint(last.as_ref(), "/s", "t", Some(note), "", "T", "S", &names, 77);
        journal.push_str(&entry_line(&c.entry));
        journal.push('\n');
        names.push(c.name);
    }
    assert_eq!(journal.lines().count(), 4, "start,done,start,done");
    assert_eq!(names, ["checkpoint-S.md", "checkpoint-S-77.md"]);
    // The journal's last event is the most recent "done" → next guard continues.
    let last = last_event_line(&journal).map(|l| event_of(&serde_json::from_str(&l).unwrap()));
    let next = guard_decision(last.as_ref(), false);
    assert!(!next.halt);
    assert_eq!(next.iter, 3);
}

#[test]
fn checkpoints_of_one_second_have_names_of_their_own() {
    let mut names: Vec<String> = vec!["status.jsonl".to_string()];
    for pid in [77, 77, 78, 77, 77] {
        let c = checkpoint(None, "/s", "t", None, "", "T", "S", &names, pid);
        assert!(!names.contains(&c.name));
        names.push(c.name);
    }
    assert_eq!(
        names,
        [
            "status.jsonl",
            "checkpoint-S.md",
            "checkpoint-S-77.md",
            "checkpoint-S-78.md",
            "checkpoint-S-77-2.md",
            "checkpoint-S-77-3.md",
        ]
    );
}

#[test]
fn checkpoint_contents() {
    let c = checkpoint(
        Some(&ev("start", 4)),
        "/s",
        "a/b",
        Some("note | x"),
        "  body\nmore \n",
        "NOW",
        "STAMP",
        &Vec::new(),
        1,
    );
    assert_eq!(c.name, "checkpoint-STAMP.md");
    assert_eq!(
        c.content,
        "# checkpoint NOW — label=a/b iter=4\n\n**note | x**\n\nbody\nmore\n"
    );
    assert_eq!(
        entry_line(&c.entry),
        r#"{"at":"NOW","event":"done","iter":4,"note":"note | x"}"#
    );
    assert_eq!(c.iter, 4);
    assert_eq!(c.detail, "iter 4 checkpointed -> checkpoint-STAMP.md");
    assert_eq!(
        c.report,
        r#"{"checkpoint":"checkpoint-STAMP.md","iter":4,"path":"/s/.loop-checkpoints/a_b/checkpoint-STAMP.md"}"#
    );
    let taken = vec!["checkpoint-STAMP.md".to_string()];
    let c = checkpoint(None, "/s", "l", None, " \n", "NOW", "STAMP", &taken, 42);
    assert_eq!(c.name, "checkpoint-STAMP-42.md");
    assert_eq!(c.content, "# checkpoint NOW — label=l iter=0\n\n");
    assert_eq!(entry_line(&c.entry), r#"{"at":"NOW","event":"done","iter":0,"note":null}"#);
}

#[test]
fn index_and_entrypoint() {
    assert_eq!(index_rows(false, "T", "f.md", "a|b"), "| T | f.md | a\\|b |\n");
    assert_eq!(
        index_rows(true, "T", "f.md", ""),
        format!("{INDEX_HEADER}| T | f.md |  |\n")
    );
    assert_eq!(
        INDEX_HEADER,
        "# Checkpoint Index (append-only — newest at bottom)\n\n| at | file | note |\n|---|---|---|\n"
    );
    let text = entrypoint("NOW", "/s", "a b", "idle", 3, "detail");
    assert_eq!(
        text,
        format!(
            "# LOOP RECOVERY ENTRYPOINT — read this FIRST on any resume\n\nGenerated: NOW\nLoop label: `a b`\nStatus: **idle** (iteration 3) — detail\n\n## Where to look (in order)\n1. Latest full checkpoint: `ls /s/.loop-checkpoints/a_b/checkpoint-*.md | sort | tail -1`\n2. Per-iteration index:    `/s/.loop-checkpoints/a_b/INDEX.md`\n3. Status journal:         `/s/.loop-checkpoints/a_b/status.jsonl` (last line = current position)\n4. All loops:              `ls /s/.loop-checkpoints/`\n\n## Rule\nIf Status is **HALTED**, the loop stopped because a previous fire died (likely an\nAPI error). Do NOT re-arm blindly: read the latest checkpoint, fix the cause, then\nre-arm — the first fire after re-arming runs `{}-loop guard --label a b --reset`.\n",
            family()
        )
    );
}

// ---- pausing and resuming ---------------------------------------------------

fn entry(id: &str, prompt: &str) -> CronListEntry {
    CronListEntry {
        id: id.to_string(),
        cron: "*/5 * * * *".to_string(),
        recurring: true,
        prompt: prompt.to_string(),
        cadence_human: None,
        inflight_tasks: vec![InflightTask {
            id: "7".to_string(),
            status: "in_progress".to_string(),
            subject: "s".to_string(),
            active_form: None,
        }],
    }
}

fn again(j: &PausedJob) -> PausedJob {
    PausedJob {
        id_original: j.id_original.clone(),
        cron: j.cron.clone(),
        cadence_human: j.cadence_human.clone(),
        recurring: j.recurring,
        prompt: j.prompt.clone(),
        canary_added: j.canary_added,
        paused_at: j.paused_at.clone(),
        label: j.label.clone(),
        inflight_tasks: Vec::new(),
    }
}

#[test]
fn pausing_and_resuming() {
    assert!(default_recurring());
    assert!(pause(Vec::new(), Vec::new(), None, "T").is_none());
    let plan = pause(vec![entry("a", "Do it. Now")], Vec::new(), None, "T").unwrap();
    assert_eq!(plan.jobs.len(), 1);
    let j = &plan.jobs[0];
    assert_eq!(j.id_original, "a");
    assert_eq!(j.cadence_human, "(unspecified)");
    assert_eq!(j.prompt, format!("Do it. Now{CANARY}"));
    assert!(j.canary_added);
    assert_eq!(j.label, "Do it");
    assert_eq!(j.paused_at, "T");
    assert_eq!(j.inflight_tasks.len(), 1);
    assert_eq!(
        plan.history,
        [r#"{"at":"T","cron":"*/5 * * * *","event":"paused","id_original":"a","label":"Do it"}"#]
    );
    assert_eq!(plan.report, r#"["a"]"#);

    // What was paused before stays in front, and is logged again.
    let second =
        pause(vec![entry("b", "x")], vec![again(&plan.jobs[0])], Some("set"), "U").unwrap();
    assert_eq!(second.report, r#"["a","b"]"#);
    assert_eq!(second.history.len(), 2);
    assert_eq!(second.jobs[0].label, "Do it");
    assert_eq!(second.jobs[1].label, "set");

    let r = resume(&plan.jobs, None, "V").unwrap();
    assert!(r.consumed);
    assert_eq!(
        r.history,
        [r#"{"at":"V","cron":"*/5 * * * *","event":"resumed","id_original":"a","inflight_tasks_replayed":1,"interval_override":null}"#]
    );
    // One job, one line.
    let v: serde_json::Value = serde_json::from_str(&r.report).unwrap();
    assert_eq!(v["cron"], "*/5 * * * *");
    assert_eq!(v["prompt"], format!("Do it. Now{CANARY}"));
    assert_eq!(v["recurring"], true);
    assert_eq!(v["label"], "Do it");
    assert_eq!(v["id_original"], "a");
    assert_eq!(v["inflight_tasks"][0]["id"], "7");
    assert_eq!(v["inflight_tasks"][0]["activeForm"], serde_json::Value::Null);
    assert_eq!(serde_json::to_string(&v).unwrap(), r.report);

    let r = resume(&second.jobs, Some("2h"), "V").unwrap();
    let shown: Vec<serde_json::Value> =
        r.report.lines().map(|l| serde_json::from_str(l).unwrap()).collect();
    assert_eq!(shown.len(), 2);
    assert_eq!(shown[0]["id_original"], "a");
    assert_eq!(shown[1]["id_original"], "b");
    assert_eq!(shown[0]["cron"], "0 */2 * * *");
    assert_eq!(shown[1]["cron"], "0 */2 * * *");
    assert!(r.history[0].contains(r#""interval_override":"2h""#));

    assert!(matches!(resume(&second.jobs, Some("5w"), "V"), Err(IntervalError::UnsupportedUnit)));
    let none = resume(&Vec::new(), Some("5w"), "V").unwrap();
    assert!(!none.consumed);
    assert!(none.history.is_empty());
    assert_eq!(none.report, "[]");
}

#[test]
fn pausing_again_keeps_a_prompt() {
    let plan = pause(vec![entry("a", "Do it.")], Vec::new(), None, "T").unwrap();
    let prompt = plan.jobs[0].prompt.clone();
    let again = pause(vec![entry("a", &prompt)], Vec::new(), None, "T").unwrap();
    assert_eq!(again.jobs[0].prompt, prompt);
    assert!(!again.jobs[0].canary_added);
}

#[test]
fn history_is_read_from_its_end() {
    assert_eq!(recent_lines("1\n2\n3\n", 2), ["3", "2"]);
    assert_eq!(history_tail("1\n2\n3\n", 2), ["2", "3"]);
    assert_eq!(history_tail("1\n2", 9), ["1", "2"]);
    assert_eq!(history_tail("1\n2", 0), Vec::<String>::new());
}

#[test]
fn fires_can_be_numbered() {
    let last = |event: &str, iter: u64| LoopEvent { event: event.to_string(), iter, at: None };
    assert!(can_fire(None, false, false));
    assert!(can_fire(Some(&last("done", 7)), false, false));
    assert!(!can_fire(Some(&last("done", u64::MAX)), false, false));
    assert!(can_fire(Some(&last("done", u64::MAX)), true, false));
    assert!(can_fire(Some(&last("start", u64::MAX)), false, false));
    assert!(can_fire(Some(&last("halt", u64::MAX)), false, false));
    assert!(!can_fire(Some(&last("halt", u64::MAX)), false, true));
}

#[test]
fn nothing_paused_takes_any_interval() {
    let p = resume(&Vec::new(), Some("5é"), "NOW").unwrap();
    assert_eq!((p.report.as_str(), p.consumed, p.history.len()), ("[]", false, 0));
}
