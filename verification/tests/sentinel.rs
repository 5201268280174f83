use claude_tools::clock::{moment_at, Moment};
use claude_tools::json::parse;
use claude_tools::loops::incident::{advance, begin, next_deed, Deed, Outcome, Progress};
use claude_tools::loops::journal::LoopEvent;
use claude_tools::loops::mail::{
    esc_html, first_urls, hostname, incident_mail, message, render_html, render_text, MailParts,
    INCIDENT_SUBJECT,
};
use claude_tools::loops::sentinel::{
    action_report, choose_hit, classify, classify_error_line, configure, count_rows,
    default_cooldown, default_true, detect_api_error, email_in_cooldown, extract_error_text,
    fnv1a, ignores, in_cooldown_since, incident_dir, is_policy_block, mail_recipient, notice_body,
    notice_command, notice_title, projects_roots, quiet_report, recent_transcripts, resume_note,
    scan_report, scan_transcript, stand_down, stop_reason, stops, verdict, ApiErrorHit, Candidate,
    SentinelConfig, Setup, Verdict,
};
use claude_tools::package::NAME;

fn family() -> &'static str {
    NAME.split('_').next().unwrap()
}

fn detect_line(line: &str) -> Option<bool> {
    let tail = format!("{line}\n");
    detect_api_error("/p/aaaaaaaa-bbbb-cccc-dddd-eeeeeeeeeeee.jsonl", "aaaaaaaa-bbbb-cccc-dddd-eeeeeeeeeeee.jsonl", &tail)
        .map(|h| h.is_policy_block)
}

fn policy_tail() -> String {
    // The REAL cybersecurity-safeguard block shape (entrypoint sdk-py).
    format!("{{\"type\":\"user\"}}\n{{\"message\":{{\"content\":[{{\"type\":\"text\",\"text\":\"API Error: Opus 4.7's safeguards flagged this message for a cybersecurity topic. Apply for an exemption: https://{}.com/form/cyber-use-case?token=x\"}}]}},\"error\":\"invalid_request\",\"isApiErrorMessage\":true,\"entrypoint\":\"sdk-py\"}}\n", family())
}

#[test]
fn sentinel_detects_policy_block() {
    let name = "11111111-2222-3333-4444-555555555555.jsonl";
    let hit = detect_api_error("/p/11111111-2222-3333-4444-555555555555.jsonl", name, &policy_tail())
        .expect("hit");
    assert!(hit.is_policy_block);
    assert_eq!(hit.entrypoint, "sdk-py");
    assert_eq!(hit.session_id, "11111111-2222-3333-4444-555555555555");
    assert!(hit.key.starts_with("11111111-2222-3333-4444-555555555555-"));
}

#[test]
fn sentinel_ignores_non_policy_api_error() {
    // A transient/auth API error is NOT the policy block — must be ignored
    // entirely (this is what stopped the spam: only policy blocks act).
    assert!(
        detect_api_error("/p/aaaa.jsonl", "aaaa.jsonl", "{\"message\":{\"content\":[{\"text\":\"Not logged in\"}]},\"error\":\"authentication_failed\",\"isApiErrorMessage\":true}\n").is_none(),
        "non-policy API errors must be ignored"
    );
}

#[test]
fn sentinel_fp_flagged_in_billing_not_cyber() {
    // "flagged" present but not the cyber block — must NOT fire.
    assert_eq!(detect_line("{\"message\":{\"content\":[{\"text\":\"Your payment method was flagged for manual review by billing.\"}]},\"error\":\"invalid_request\",\"isApiErrorMessage\":true,\"entrypoint\":\"cli\"}"), None);
}

#[test]
fn sentinel_fp_violates_retry_policy_not_usage() {
    // "violates"+"policy" present but not "violate our usage policy" — must NOT fire.
    assert_eq!(detect_line("{\"message\":{\"content\":[{\"text\":\"Request rejected: it violates our retry policy, please back off.\"}]},\"error\":\"invalid_request\",\"isApiErrorMessage\":true,\"entrypoint\":\"cli\"}"), None);
}

#[test]
fn sentinel_fp_content_mention_is_not_a_block() {
    // A normal turn that DISCUSSES cybersecurity (no isApiErrorMessage) must NOT fire.
    assert_eq!(detect_line("{\"type\":\"assistant\",\"message\":{\"content\":[{\"type\":\"text\",\"text\":\"Sure — let's discuss the cybersecurity topic and the cyber-use-case exemption form.\"}]}}"), None);
}

#[test]
fn sentinel_fn_phrasing_variant_still_caught() {
    // Phrasing variant without "this message" — "cybersecurity topic" still catches it.
    assert_eq!(detect_line("{\"message\":{\"content\":[{\"text\":\"API Error: safeguards flagged for a cybersecurity topic.\"}]},\"error\":\"invalid_request\",\"isApiErrorMessage\":true,\"entrypoint\":\"cli\"}"), Some(true));
}

fn moment_of(t: chrono::DateTime<chrono::Utc>) -> Moment {
    Moment { secs: t.timestamp(), nanos: t.timestamp_subsec_nanos() }
}

#[test]
fn sentinel_cooldown_suppresses_recent_email() {
    let t = chrono::Utc::now();
    let now = moment_of(t);
    // emailed 1 min ago → within the 120-min cooldown → suppress.
    assert!(email_in_cooldown(Some(&(t - chrono::Duration::minutes(1)).to_rfc3339()), 120, now));
    // emailed 3h ago → past cooldown → allow.
    assert!(!email_in_cooldown(Some(&(t - chrono::Duration::minutes(180)).to_rfc3339()), 120, now));
    // never emailed → allow.
    assert!(!email_in_cooldown(None, 120, now));
}

#[test]
fn cooldown_edges() {
    let now = moment_at(10_000).unwrap();
    assert!(in_cooldown_since(moment_at(10_000 - 119 * 60 - 59), 120, now));
    assert!(!in_cooldown_since(moment_at(10_000 - 120 * 60), 120, now));
    assert!(in_cooldown_since(moment_at(20_000), 120, now));
    assert!(!in_cooldown_since(None, 120, now));
    assert!(!email_in_cooldown(Some("noise"), 120, now));
    assert!(email_in_cooldown(Some(" 1970-01-01T02:00:00Z\n"), 120, now));
}

#[test]
fn sentinel_ignores_clean_transcript() {
    assert!(detect_api_error("/p/bbbb.jsonl", "bbbb.jsonl", "{\"type\":\"assistant\",\"stop_reason\":\"end_turn\"}\n{\"type\":\"user\"}\n").is_none());
}

#[test]
fn sentinel_fnv1a_is_stable() {
    assert_eq!(fnv1a("abc"), fnv1a("abc"));
    assert_ne!(fnv1a("abc"), fnv1a("abd"));
}

#[test]
fn fnv1a_values() {
    assert_eq!(fnv1a(""), 0xcbf2_9ce4_8422_2325);
    assert_eq!(fnv1a("a"), 0xaf63_dc4c_8601_ec8c);
    assert_eq!(fnv1a("foobar"), 0x8594_4171_f739_67e8);
}

#[test]
fn blocks_are_found_behind_other_lines() {
    let tail = format!("half a li\"isApiErrorMessage\":true\n{}{{\"isApiErrorMessage\": true,\"error\":\"overloaded\"}}\n", policy_tail());
    let hit = detect_api_error("/p/x.y.jsonl", "x.y.jsonl", &tail).unwrap();
    assert_eq!(hit.session_id, "x.y");
    assert_eq!(hit.transcript, "/p/x.y.jsonl");
    assert_eq!(hit.error_code, "invalid_request");
    let line = policy_tail().lines().nth(1).unwrap().to_string();
    assert_eq!(hit.key, format!("x.y-{:016x}", fnv1a(&line)));
}

#[test]
fn errors_are_classified() {
    let j = parse(r#"{"b":[{"x":1},{"text":"T"}],"a":{"text":5}}"#).unwrap();
    assert_eq!(extract_error_text(&j).unwrap(), "T");
    assert_eq!(extract_error_text(&parse("[1,\"text\"]").unwrap()), None);
    assert_eq!(
        classify(&parse("{}").unwrap()),
        ("api_error".to_string(), "api_error".to_string(), false, "".to_string())
    );
    assert!(is_policy_block("You VIOLATE OUR USAGE POLICY"));
    assert!(is_policy_block("we are Unable To Respond To This Request"));
    assert!(!is_policy_block("violates our usage policy"));
    assert_eq!(classify_error_line("{\"isApiErrorMessage\":false}"), None);
    assert_eq!(classify_error_line("{\"isApiErrorMessage\":true"), None);
    let (code, text, policy, entry) = classify_error_line(
        "{\"isApiErrorMessage\": true,\"error\":\"e\",\"entrypoint\":\"cli\",\"m\":{\"text\":\"a cyber-use-case b\"}}",
    )
    .unwrap();
    assert_eq!((code.as_str(), text.as_str(), policy, entry.as_str()), ("e", "a cyber-use-case b", true, "cli"));
}

fn hit(entrypoint: &str, policy: bool) -> ApiErrorHit {
    ApiErrorHit {
        transcript: "/p/s.jsonl".to_string(),
        session_id: "s".to_string(),
        entrypoint: entrypoint.to_string(),
        error_code: "code".to_string(),
        message: "one\ntwo https://a.b/cyber-use-case, https://c.d.".to_string(),
        is_policy_block: policy,
        key: "s-key".to_string(),
    }
}

#[test]
fn first_call_is_acted_on() {
    // A block of an automated session hides none of an interactive one.
    let found = vec![hit("sdk-py", true), hit("cli", true)];
    assert_eq!(choose_hit(&found, &vec![false, false], true), Some(1));
    assert_eq!(choose_hit(&found, &vec![false, false], false), Some(0));
    // Nor does one that was acted on before, whose turn is over.
    let found = vec![hit("cli", true), hit("cli", false), hit("cli", true)];
    assert_eq!(choose_hit(&found, &vec![false, false, false], true), Some(0));
    assert_eq!(choose_hit(&found, &vec![true, false, false], true), Some(2));
    assert_eq!(choose_hit(&found, &vec![true, false, true], true), None);
    assert_eq!(choose_hit(&Vec::new(), &Vec::new(), true), None);
}

#[test]
fn quiet_runs_are_told() {
    assert_eq!(stand_down(&Vec::new(), &Vec::new(), true), r#"{"status":"healthy"}"#);
    assert_eq!(
        stand_down(&vec![hit("sdk-py", true), hit("cli", true)], &vec![false, true], true),
        r#"{"entrypoint":"sdk-py","session":"s","status":"ignored-sdk-subagent"}"#
    );
    assert_eq!(
        stand_down(&vec![hit("cli", true)], &vec![true], true),
        r#"{"key":"s-key","status":"already-actioned"}"#
    );
}

#[test]
fn verdicts() {
    assert!(verdict(None, true, false) == Verdict::Healthy);
    assert!(verdict(Some(&hit("sdk-py", true)), true, false) == Verdict::IgnoredSdk);
    assert!(verdict(Some(&hit("sdk-py", true)), false, false) == Verdict::Act);
    assert!(verdict(Some(&hit("cli", true)), true, true) == Verdict::AlreadyActioned);
    assert!(verdict(Some(&hit("cli", true)), true, false) == Verdict::Act);
    assert!(ignores(&hit("sdk", true), true));
    assert_eq!(quiet_report(None, Verdict::Healthy), r#"{"status":"healthy"}"#);
    assert_eq!(
        quiet_report(Some(&hit("sdk-py", true)), Verdict::IgnoredSdk),
        r#"{"entrypoint":"sdk-py","session":"s","status":"ignored-sdk-subagent"}"#
    );
    assert_eq!(
        quiet_report(Some(&hit("cli", true)), Verdict::AlreadyActioned),
        r#"{"key":"s-key","status":"already-actioned"}"#
    );
}

#[test]
fn configurations() {
    assert!(default_true());
    assert_eq!(default_cooldown(), 120);
    let c = SentinelConfig::default();
    assert_eq!(c.email, None);
    assert!(!c.email_enabled && c.desktop_enabled && c.ignore_sdk);
    assert_eq!(c.cooldown_mins, 120);
    assert!(c.extra_project_roots.is_empty());
    let (c, said) = configure(c, Setup::Email("a@b".to_string()));
    assert!(c.email_enabled);
    assert_eq!(said, r#"{"desktop_enabled":true,"email":"a@b","email_enabled":true}"#);
    let (c, _) = configure(c, Setup::NoEmail);
    assert!(!c.email_enabled);
    assert_eq!(c.email.as_deref(), Some("a@b"));
    let (c, _) = configure(c, Setup::Typed(" x@y \n".to_string()));
    assert_eq!((c.email.as_deref(), c.email_enabled), (Some("x@y"), true));
    let (c, _) = configure(c, Setup::Typed(" \n".to_string()));
    assert_eq!((c.email.as_deref(), c.email_enabled), (Some("x@y"), false));
    let (mut c, said) = configure(SentinelConfig::default(), Setup::Nothing);
    assert_eq!(said, r#"{"desktop_enabled":true,"email":null,"email_enabled":false}"#);
    c.extra_project_roots = vec!["/e".to_string()];
    assert_eq!(projects_roots("/s", &c), ["/s/projects", "/e"]);
    assert!(mail_recipient(&c, false).is_none());
    c.email_enabled = true;
    assert!(mail_recipient(&c, false).is_none());
    c.email = Some("a".to_string());
    assert_eq!(mail_recipient(&c, false).unwrap(), "a");
    assert!(mail_recipient(&c, true).is_none());
}

#[test]
fn transcripts_come_newest_first() {
    let c = |name: &str, mtime: i64| Candidate {
        path: format!("/p/{name}"),
        name: name.to_string(),
        mtime,
    };
    let files = vec![c("a.jsonl", 940), c("b.jsonl", 1000), c("c.txt", 1000), c("d.jsonl", 399), c("e.jsonl", 1000), c("f.jsonl", 400)];
    assert_eq!(recent_transcripts(&files, 1000, 10), ["/p/b.jsonl", "/p/e.jsonl", "/p/a.jsonl", "/p/f.jsonl"]);
    assert_eq!(recent_transcripts(&files, 1000, -5), ["/p/b.jsonl", "/p/e.jsonl"]);
}

#[test]
fn running_loops_are_stopped() {
    let ev = |event: &str| LoopEvent { event: event.to_string(), iter: 1, at: None };
    assert!(stops("l", Some(&ev("start")), false));
    assert!(!stops("l", Some(&ev("start")), true));
    assert!(!stops(".sentinel-actioned", Some(&ev("start")), false));
    assert!(!stops("l", Some(&ev("done")), false));
    assert!(!stops("l", None, false));
    assert_eq!(
        stop_reason(&hit("cli", true)),
        "sentinel: API error (code) in session s — loop DISABLED so it can't iterate into the block (usage-policy / classifier block)"
    );
    assert_eq!(
        stop_reason(&hit("cli", false)),
        "sentinel: API error (code) in session s — loop DISABLED so it can't iterate into the block"
    );
}

#[test]
fn incidents_are_described() {
    let f = family();
    assert_eq!(incident_dir("/s", "STAMP"), "/s/.loop-checkpoints/api-incident-STAMP");
    assert_eq!(
        resume_note(&hit("cli", true), "STAMP"),
        format!(
            "# API-error incident — STAMP\n\nA loop/session hit an API error (usage-policy / cybersecurity-classifier block).\n\n- **Error code:** `code`\n- **Message:** one two https://a.b/cyber-use-case, https://c.d.\n- **Session id:** `s`\n- **Original transcript:** `/p/s.jsonl`\n- **Full backup copy:** `transcript.jsonl` (this dir)\n\n## Resume (canonical)\nRe-attach to the original session — the entire conversation comes back:\n\n```sh\n{f} --resume s\n```\n\nIf that session is gone, `transcript.jsonl` here is the complete raw\nconversation (every turn C{} Code wrote, independent of checkpoint/rewind).\nOpen it or feed it to a fresh session to review + continue.\n\n## Why the loop stopped\nThe sentinel DISABLED all running loops so they don't iterate into the same\nblock. Re-arm a fixed loop with `{f}-loop guard --label <L> --reset`.\n",
            &f[1..]
        )
    );
    assert_eq!(notice_title(true), format!("C{} Code blocked (usage-policy)", &f[1..]));
    assert_eq!(notice_title(false), format!("C{} Code API error", &f[1..]));
    assert_eq!(
        notice_body(&hit("cli", true), 2, "/b"),
        "code — session s stopped 2 loop(s). Backup + RESUME.md: /b"
    );
    assert_eq!(
        action_report(&hit("cli", true), &vec!["l".to_string()], "/b", true, false, true),
        r#"{"backup":"/b","entrypoint":"cli","error":"code","loops_stopped":["l"],"notified":{"desktop":true,"email":false,"email_suppressed_cooldown":true},"policy_block":true,"session":"s","status":"ACTIONED"}"#
    );
}

#[test]
fn notices_by_system() {
    let (program, args) = notice_command("linux", "t", "b").unwrap();
    assert_eq!((program.as_str(), args), ("notify-send", vec!["-u".to_string(), "critical".into(), "t".into(), "b".into()]));
    let (program, args) = notice_command("macos", "t\"", "b\"").unwrap();
    assert_eq!(program, "osascript");
    assert_eq!(args, ["-e", "display notification \"b'\" with title \"t'\""]);
    let (program, args) = notice_command("windows", "t'", "b'").unwrap();
    assert_eq!(program, "powershell");
    assert_eq!(args, ["-NoProfile", "-Command", "New-BurntToastNotification -Text 't`'','b`''"]);
    assert!(notice_command("plan9", "t", "b").is_none());
}

#[test]
fn scans_agree_with_verdicts() {
    let row = scan_transcript("s.jsonl", &policy_tail(), true).unwrap();
    assert_eq!((row.session.as_str(), row.entrypoint.as_str(), row.error.as_str()), ("s", "sdk-py", "invalid_request"));
    assert!(row.policy_block && !row.would_alert);
    assert_eq!(row.snippet.chars().count(), 100);
    let other = scan_transcript("s.jsonl", &policy_tail(), false).unwrap();
    assert!(other.would_alert);
    assert!(scan_transcript("s.jsonl", "{}\n", true).is_none());
    assert_eq!(count_rows(&vec![row, other]), (2, 1));
}

// ---- mail ---------------------------------------------------------------------

fn parts() -> MailParts {
    MailParts {
        accent: "#111".to_string(),
        kicker: "K&".to_string(),
        title: "T".to_string(),
        intro: "I<".to_string(),
        kv: vec![("a".to_string(), "b\"".to_string())],
        code: Some(("l".to_string(), "c".to_string())),
        steps: vec!["s1".to_string(), "s2".to_string()],
        links: vec![("L".to_string(), "http://u".to_string())],
        footer: "F>".to_string(),
    }
}

#[test]
fn mail_helpers() {
    assert_eq!(esc_html("a&<>\"'"), "a&amp;&lt;&gt;&quot;'");
    assert_eq!(
        first_urls("x http://a.b). https://c \"http://d http://a.b", 9),
        ["http://a.b", "https://c"]
    );
    assert_eq!(first_urls("http://a http://b http://c", 2), ["http://a", "http://b"]);
    assert!(first_urls("http://a", 0).is_empty());
    assert_eq!(hostname(Some(" box\n")), "box");
    assert_eq!(hostname(Some("\n")), "prime");
    assert_eq!(hostname(None), "prime");
}

#[test]
fn mails_as_text() {
    assert_eq!(
        render_text(&parts()),
        "K&\nT\n\nI<\n  a: b\"\n\nl:\n    c\n\nWhat to do:\n  1. s1\n  2. s2\n\nL: http://u\n\n--\nF>\n"
    );
    let mut bare = parts();
    bare.kv.clear();
    bare.code = None;
    bare.steps.clear();
    bare.links.clear();
    assert_eq!(render_text(&bare), "K&\nT\n\nI<\n\n--\nF>\n");
}

#[test]
fn mails_as_html() {
    let h = render_html(&parts());
    assert!(h.starts_with("<!doctype html><html><body style=\"margin:0;padding:0;background:#f4f5f7;\"><div style=\"display:none;max-height:0;overflow:hidden;opacity:0;\">I&lt;</div>"));
    assert!(h.contains("<tr><td style=\"background:#111;padding:20px 28px;\"><div style=\"color:rgba(255,255,255,.82);font-size:11px;letter-spacing:.12em;text-transform:uppercase;font-weight:700;\">K&amp;</div>"));
    assert!(h.contains("word-break:break-all;\">b&quot;</td></tr></table></td></tr><tr><td style=\"padding:12px 28px;\">"));
    assert!(h.contains("color:#111;font-weight:700;font-size:14px;\">2.</td>"));
    assert!(h.contains("<a href=\"http://u\" style=\"display:inline-block;margin:6px 8px 6px 0;padding:9px 16px;background:#111;"));
    assert!(h.ends_with("line-height:1.5;\">F&gt;</td></tr></table></td></tr></table></body></html>"));
}

#[test]
fn html_is_read_back() {
    for s in ["", "a&b", "&lt;", "&amp;lt;&", "<a href=\"x\">&quot;</a>", "é&&gt;;"] {
        let h = esc_html(s);
        assert!(!h.contains(['<', '>', '"']));
        let back = h
            .replace("&lt;", "<")
            .replace("&gt;", ">")
            .replace("&quot;", "\"")
            .replace("&amp;", "&");
        assert_eq!(back, s);
        assert_eq!(esc_html(&format!("{s}<&{s}")), format!("{h}&lt;&amp;{h}"));
    }
    assert_eq!(esc_html("&lt;"), "&amp;lt;");
}

#[test]
fn texts_cannot_change_the_markup_of_a_mail() {
    let markup = |m: &MailParts| {
        render_html(m).chars().filter(|c| ['<', '>', '"'].contains(c)).collect::<String>()
    };
    let plain = parts();
    let mut odd = parts();
    for s in [&mut odd.kicker, &mut odd.title, &mut odd.intro, &mut odd.footer] {
        *s = "</td><script>\"&lt;".to_string();
    }
    for (a, b) in odd.kv.iter_mut().chain(odd.links.iter_mut()) {
        *a = "\"><b>".to_string();
        *b = "<<<\"\"\"".to_string();
    }
    for s in odd.steps.iter_mut() {
        *s = "</table>".to_string();
    }
    odd.code = odd.code.map(|_| ("<".to_string(), ">".to_string()));
    assert_eq!(markup(&plain), markup(&odd));
}

#[test]
fn mails_are_framed() {
    let p = parts();
    let m = message("to@x", "S", &p);
    let b = format!("=_cl_{:016x}", fnv1a("to@xST"));
    let expected = format!(
        "To: to@x\r\nFrom: PlausiDen Guard <{}-tools@plausiden.com>\r\nSubject: S\r\nMIME-Version: 1.0\r\nContent-Type: multipart/alternative; boundary=\"{b}\"\r\n\r\n--{b}\r\nContent-Type: text/plain; charset=utf-8\r\nContent-Transfer-Encoding: 8bit\r\n\r\n{}\r\n--{b}\r\nContent-Type: text/html; charset=utf-8\r\nContent-Transfer-Encoding: 8bit\r\n\r\n{}\r\n--{b}--\r\n",
        family(),
        render_text(&p),
        render_html(&p)
    );
    assert_eq!(m, expected);
}

#[test]
fn incident_mails() {
    let f = family();
    assert_eq!(INCIDENT_SUBJECT, "PlausiDen API Guard — session halted, backup ready");
    let m = incident_mail(&hit("cli", true), "box", &Vec::new(), "/b", "NOW");
    assert_eq!(m.accent, "#B4232B");
    assert_eq!(m.kicker, "PlausiDen API Guard · Incident");
    assert_eq!(m.title, "A cyber-classifier block halted a session");
    assert_eq!(m.intro, "box detected a cybersecurity-classifier block in an interactive session and stopped 0 running loop(s). Your conversation is backed up and fully resumable — here's how.");
    assert_eq!(m.kv[3], ("Loops stopped".to_string(), "none (not a guarded loop)".to_string()));
    assert_eq!(m.code.unwrap(), ("Resume the full conversation".to_string(), format!("{f} --resume s")));
    assert_eq!(m.steps[2], format!("Fix the underlying cause, then re-arm any halted loop with:  {f}-loop guard --label <LABEL> --reset"));
    assert_eq!(
        m.links,
        [
            ("Apply for exemption".to_string(), "https://a.b/cyber-use-case".to_string()),
            ("Learn more".to_string(), "https://c.d".to_string()),
            ("Support article".to_string(), format!("https://support.{f}.com/en/articles/15363606")),
        ]
    );
    assert_eq!(m.footer, format!("Sent by the {f}-loop sentinel on box at NOW.  Disable: systemctl disable --now {f}-sentinel.timer  ·  Reconfigure: {f}-loop sentinel --setup"));
    let m = incident_mail(&hit("cli", false), "box", &vec!["a".to_string(), "b".to_string()], "/b", "NOW");
    assert_eq!((m.accent.as_str(), m.title.as_str()), ("#B26A00", "An API error halted a session"));
    assert_eq!(m.kv[3].1, "a, b");
}

fn told(d: &Deed) -> String {
    match d {
        Deed::StopLoops => "stop".to_string(),
        Deed::BackUp => "back up".to_string(),
        Deed::Notify(program, args) => format!("{program} {}", args.join("|")),
        Deed::ReadLastMail => "last mail".to_string(),
        Deed::Mail(to) => format!("mail {to}"),
        Deed::NoteMail => "note mail".to_string(),
        Deed::Mark => "mark".to_string(),
        Deed::Report(line) => line.clone(),
    }
}

/// What is done about an incident, in order, up to the report.
fn course(cfg: &SentinelConfig, os: &str, in_cooldown: bool, sent: bool) -> Vec<String> {
    let h = hit("cli", true);
    let mut p = begin();
    let mut deeds = Vec::new();
    loop {
        let deed = next_deed(&h, cfg, os, &p);
        deeds.push(told(&deed));
        p = match deed {
            Deed::StopLoops => advance(p, Outcome::Stopped(vec!["l".to_string()])),
            Deed::BackUp => advance(p, Outcome::BackedUp("/b".to_string())),
            Deed::Notify(_, _) => advance(p, Outcome::Notified(true)),
            Deed::ReadLastMail => advance(p, Outcome::InCooldown(in_cooldown)),
            Deed::Mail(_) => advance(p, Outcome::Mailed(sent)),
            Deed::NoteMail => advance(p, Outcome::Noted),
            Deed::Mark => advance(p, Outcome::Marked),
            Deed::Report(_) => return deeds,
        };
    }
}

fn reported(desktop: bool, email: bool, suppressed: bool) -> String {
    action_report(&hit("cli", true), &vec!["l".to_string()], "/b", desktop, email, suppressed)
}

#[test]
fn incidents_are_handled_in_order() {
    let mut cfg = SentinelConfig::default();
    cfg.email = Some("a@b".to_string());
    cfg.email_enabled = true;
    let notice = format!(
        "notify-send -u|critical|{}|code — session s stopped 1 loop(s). Backup + RESUME.md: /b",
        notice_title(true)
    );
    let full = reported(true, true, false);
    assert_eq!(
        course(&cfg, "linux", false, true),
        ["stop", "back up", &notice, "last mail", "mail a@b", "note mail", "mark", &full]
    );
    // Mail that could not be sent is not on record.
    let unsent = reported(true, false, false);
    assert_eq!(
        course(&cfg, "linux", false, false),
        ["stop", "back up", &notice, "last mail", "mail a@b", "mark", &unsent]
    );
    // None goes out while some went out lately, and that is said.
    let quiet = reported(true, false, true);
    assert_eq!(
        course(&cfg, "linux", true, true),
        ["stop", "back up", &notice, "last mail", "mark", &quiet]
    );
    // Without an address, and where the system shows no notifications.
    cfg.email = None;
    let least = reported(false, false, false);
    assert_eq!(course(&cfg, "plan9", false, true), ["stop", "back up", "last mail", "mark", &least]);
    cfg.desktop_enabled = false;
    assert_eq!(course(&cfg, "linux", false, true), ["stop", "back up", "last mail", "mark", &least]);
}

#[test]
fn incidents_resume_where_they_were() {
    let cfg = SentinelConfig::default();
    let halfway = Progress {
        stopped: Some(Vec::new()),
        backup: Some("/b".to_string()),
        desktop: Some(false),
        in_cooldown: None,
        emailed: None,
        noted: false,
        marked: false,
    };
    assert_eq!(told(&next_deed(&hit("cli", false), &cfg, "linux", &halfway)), "last mail");
    let p = advance(advance(halfway, Outcome::InCooldown(false)), Outcome::Marked);
    assert_eq!(
        told(&next_deed(&hit("cli", false), &cfg, "linux", &p)),
        action_report(&hit("cli", false), &Vec::new(), "/b", false, false, false)
    );
}

#[test]
fn scans_are_reported() {
    let rows = vec![scan_transcript("s.jsonl", &policy_tail(), true).unwrap()];
    let shown: serde_json::Value = serde_json::from_str(&scan_report(&rows, -5)).unwrap();
    assert_eq!(shown["within_mins"], -5);
    assert_eq!(shown["scan_only"], true);
    assert_eq!(shown["transcripts_with_api_error"], 1);
    assert_eq!(shown["policy_blocks"], 1);
    assert_eq!(shown["would_alert"], 0);
    assert_eq!(shown["rows"][0]["entrypoint"], "sdk-py");
    assert_eq!(shown["rows"][0]["session"], "s");
    assert_eq!(shown["rows"][0]["policy_block"], true);
    assert_eq!(shown["rows"][0]["would_alert"], false);
    assert_eq!(serde_json::to_string_pretty(&shown).unwrap(), scan_report(&rows, -5));
    assert_eq!(
        scan_report(&Vec::new(), 10),
        "{\n  \"policy_blocks\": 0,\n  \"rows\": [],\n  \"scan_only\": true,\n  \"transcripts_with_api_error\": 0,\n  \"within_mins\": 10,\n  \"would_alert\": 0\n}"
    );
}
