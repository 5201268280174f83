use claude_tools::mesh::delivery::Delivery;
use claude_tools::mesh::editor::{byte_of, cursor_rc, insert_at, remove_at, visual_rows};
use claude_tools::mesh::layout::{ch_w, fitting_w, prefix_w, str_w, wrap};
use claude_tools::mesh::message::{new_post, Message};
use claude_tools::mesh::monitor::{due, Action, App, Focus, Key};
use claude_tools::mesh::names::{display_map, name_of, role_of, sender_color, short, Hue};
use claude_tools::mesh::node::{new_config, Config};
use claude_tools::mesh::screen::{
    anchor, conversation_lines, conversation_title, cursor_at, fit_body, follow_cursor, help,
    lines_at_worth, picker_size, presence_bar, shown_rows, Mark, Shown,
};

#[test]
fn newline_makes_separate_rows() {
    // "first\nsecond" must be TWO rows, never a submit side-effect or one
    // collapsed line.
    let rows = visual_rows("first\nsecond", 40);
    assert_eq!(rows.len(), 2);
    assert_eq!(rows[0].1, "first");
    assert_eq!(rows[1].1, "second");
    // char indices: "second" starts after "first" + the newline char
    assert_eq!(rows[1].0, 6);
}

#[test]
fn soft_wrap_splits_and_cursor_lands_on_next_row() {
    let rows = visual_rows("abcdefgh", 4);
    assert_eq!(rows.iter().map(|(_, s)| s.as_str()).collect::<Vec<_>>(), ["abcd", "efgh"]);
    // cursor at char 4 sits at the START of the wrapped row, not past row 0's edge
    assert_eq!(cursor_rc(&rows, 4), (1, 0));
    assert_eq!(cursor_rc(&rows, 8), (1, 4)); // end of text
}

#[test]
fn cursor_after_newline_is_next_row_col0() {
    let rows = visual_rows("ab\ncd", 40);
    assert_eq!(cursor_rc(&rows, 2), (0, 2)); // before the newline
    assert_eq!(cursor_rc(&rows, 3), (1, 0)); // after it
}

#[test]
fn wide_chars_wrap_by_display_width() {
    // 3 CJK chars = 6 columns; at width 4 only two fit per row
    let rows = visual_rows("中文字", 4);
    assert_eq!(rows.len(), 2);
    assert_eq!(rows[0].1, "中文");
    // cursor after the first wide char = display column 2
    assert_eq!(cursor_rc(&rows, 1), (0, 2));
}

#[test]
fn empty_text_still_one_row() {
    let rows = visual_rows("", 10);
    assert_eq!(rows.len(), 1);
    assert_eq!(cursor_rc(&rows, 0), (0, 0));
}

#[test]
fn cursors_past_the_end_stand_at_it() {
    let rows = visual_rows("ab\ncd", 40);
    assert_eq!(cursor_rc(&rows, 99), (1, 2));
    assert_eq!(cursor_rc(&Vec::new(), 3), (0, 0));
    // A width below four counts as four.
    assert_eq!(visual_rows("abcde", 1).len(), 2);
    assert_eq!(visual_rows("a\n", 9), [(0, "a".to_string()), (2, String::new())]);
}

#[test]
fn widths_are_those_of_the_outside_crate() {
    for c in ['a', '中', '\u{301}', '\n', '\u{0}', '😀', '…', '\u{200b}'] {
        let expected = unicode_width::UnicodeWidthChar::width(c).unwrap_or(0);
        assert_eq!(ch_w(c), expected, "{c:?}");
    }
    assert_eq!(str_w("a中😀"), 5);
    assert_eq!(str_w(""), 0);
    assert_eq!(str_w("a中😀b"), str_w("a中") + str_w("😀b"));
    assert_eq!(prefix_w("a中😀", 2), 3);
    assert_eq!(fitting_w("a中", 3), Some(3));
    assert_eq!(fitting_w("a中", 2), None);
}

#[test]
fn text_is_wrapped() {
    assert_eq!(wrap("a b", 30, "  "), ["  a b"]);
    assert_eq!(wrap("", 30, "  "), [""]);
    assert_eq!(wrap("a\n \nb", 30, ""), ["a", "", "b"]);
    // Widths below 24 count as 24.
    assert_eq!(wrap("aaaaaaaaaa bbbbbbbbbb cccc", 1, "  "), ["  aaaaaaaaaa bbbbbbbbbb", "  cccc"]);
    assert_eq!(wrap(&"x".repeat(30), 24, "  "), [format!("  {}", "x".repeat(22)), format!("  {}", "x".repeat(8))]);
    assert_eq!(wrap(&"中".repeat(13), 24, ""), ["中".repeat(12), "中".to_string()]);
    for line in wrap(&"word 中文 ".repeat(40), 30, "    ") {
        assert!(str_w(&line) <= 30);
    }
}

#[test]
fn characters_are_edited() {
    assert_eq!(byte_of("aéb", 2), 3);
    assert_eq!(byte_of("aéb", 9), 4);
    assert_eq!(insert_at("ab", 1, "éé"), ("aééb".to_string(), 3));
    assert_eq!(remove_at("aéb", 1), "ab");
}

// ---- names --------------------------------------------------------------------

fn texts(v: &[&str]) -> Vec<String> {
    v.iter().map(|s| s.to_string()).collect()
}

#[test]
fn names_are_friendly() {
    assert_eq!(role_of("governor@prime#1"), "governor");
    assert_eq!(short("x"), "x");
    let all = texts(&["gov@p#2", "gov@p#1", "sub@p#3", "owner@p#4", "owner@p#5", "gov@p#9"]);
    let present = texts(&["gov@p#2", "gov@p#1", "gov@p#1", "owner@p#4", "owner@p#5", "sub@p#3"]);
    let names = display_map(&all, &present);
    assert_eq!(name_of(&names, "gov@p#1"), "gov 1");
    assert_eq!(name_of(&names, "gov@p#2"), "gov 2");
    assert_eq!(name_of(&names, "gov@p#9"), "gov");
    assert_eq!(name_of(&names, "sub@p#3"), "sub");
    assert_eq!(name_of(&names, "owner@p#4"), "Paul");
    assert_eq!(name_of(&names, "unknown@h"), "unknown");
    assert_eq!(names.len(), 6);
    assert_eq!(sender_color("Paul"), Hue::White);
    assert_eq!(sender_color("x"), Hue::Cyan);
    assert_eq!(sender_color("y"), Hue::Green);
    assert_eq!(sender_color("z"), Hue::Yellow);
    assert_eq!(sender_color("{"), Hue::Magenta);
    assert_eq!(sender_color("|"), Hue::LightBlue);
    assert_eq!(sender_color("}"), Hue::LightRed);
}

// ---- the monitor --------------------------------------------------------------

fn cfg() -> Config {
    new_config("governor", "prime", "eae77914", "/repo", None, None)
}

fn app() -> App {
    App::new(cfg(), None, false)
}

fn message(id: &str, from: &str, room: &str) -> Message {
    let mut c = cfg();
    c.id = from.to_string();
    new_post(&c, id, "2026-08-07T01:02:03Z", "all", "fyi", "subj", None, None, Some(room), "body")
}

fn press(a: &mut App, text: &str) {
    for c in text.chars() {
        assert!(matches!(a.handle_key(Key::Char(c), false), Action::Stay));
    }
}

#[test]
fn monitor_starts_empty() {
    let a = app();
    assert_eq!(a.room_label, "main");
    assert_eq!(a.post_room, "main");
    assert_eq!((a.to.as_str(), a.to_label.as_str()), ("all", "everyone"));
    assert_eq!(a.body_w, 60);
    let b = App::new(cfg(), Some("dev".to_string()), true);
    assert_eq!((b.room_label.as_str(), b.post_room.as_str(), b.full), ("dev", "dev", true));
    let mut none = cfg();
    none.rooms = Vec::new();
    let c = App::new(none, None, false);
    assert_eq!((c.room_label.as_str(), c.post_room.as_str()), ("", "main"));
}

#[test]
fn monitor_takes_in_messages() {
    let mut a = app();
    let found = vec![message("1", "gov@p#1", "main"), message("2", "gov@p#2", "dev")];
    a.refresh(&found, texts(&["gov@p#1", "gov@p#2"]));
    assert_eq!(a.msgs.len(), 1);
    assert_eq!(name_of(&a.names, "gov@p#1"), "gov 1");
    assert_eq!(name_of(&a.names, "gov@p#2"), "gov 2");
    assert_eq!(name_of(&a.names, "governor@prime#eae77914"), "governor");
    let targets = a.picker_targets();
    assert_eq!(
        targets,
        [
            ("all".to_string(), "everyone".to_string()),
            ("gov@p#1".to_string(), "gov 1".to_string()),
            ("gov@p#2".to_string(), "gov 2".to_string()),
        ]
    );
}

#[test]
fn monitor_shows_each_message_once_and_in_order() {
    let mut a = app();
    assert_eq!(a.sight(), (0, None, 0));
    let late = |id: &str, ts: &str| {
        let mut m = message(id, "gov@p#1", "main");
        m.ts = ts.to_string();
        m
    };
    // From the repository and its mirror, in no order.
    let found = vec![late("b", "2"), late("c", "1"), late("a", "2"), late("b", "2"), late("c", "1")];
    a.refresh(&found, texts(&["gov@p#1"]));
    assert_eq!(a.msgs.iter().map(|m| m.id.as_str()).collect::<Vec<_>>(), ["c", "a", "b"]);
    assert_eq!(a.sight(), (3, Some("b".to_string()), 1));
}

#[test]
fn the_monitor_keeps_pace() {
    let at = |refresh, sync| {
        let d = due(refresh, sync);
        (d.refresh, d.sync)
    };
    assert_eq!(at(599, 15_000), (false, false));
    assert_eq!(at(600, 14_999), (true, false));
    assert_eq!(at(600, 15_000), (true, true));
}

#[test]
fn typing_edits_the_body() {
    let mut a = app();
    press(&mut a, "ab");
    a.handle_key(Key::Enter, false);
    press(&mut a, "cd");
    assert_eq!((a.body.as_str(), a.cur), ("ab\ncd", 5));
    a.handle_key(Key::Up, false);
    assert_eq!(a.cur, 2);
    a.handle_key(Key::Home, false);
    assert_eq!(a.cur, 0);
    a.handle_key(Key::Delete, false);
    assert_eq!(a.body, "b\ncd");
    a.handle_key(Key::Down, false);
    assert_eq!(a.cur, 2);
    a.handle_key(Key::End, false);
    assert_eq!(a.cur, 4);
    a.handle_key(Key::Left, false);
    a.handle_key(Key::Backspace, false);
    assert_eq!((a.body.as_str(), a.cur), ("b\nd", 2));
    a.handle_key(Key::Right, false);
    a.handle_key(Key::Right, false);
    assert_eq!(a.cur, 3);
    a.insert("x\r\ny");
    assert_eq!(a.body, "b\ndx\ny");
}

#[test]
fn typing_edits_the_subject() {
    let mut a = app();
    a.handle_key(Key::Tab, false);
    assert!(a.focus == Focus::Subject);
    a.insert("s\r\nt");
    assert_eq!((a.subject.as_str(), a.scur), ("s  t", 4));
    a.handle_key(Key::Home, false);
    a.handle_key(Key::Delete, false);
    assert_eq!(a.subject, "  t");
    a.handle_key(Key::End, false);
    a.handle_key(Key::Backspace, false);
    assert_eq!(a.subject, "  ");
    a.handle_key(Key::Enter, false);
    assert!(a.focus == Focus::Body);
    // Up from the first row leads back to the subject, Down out of it.
    a.handle_key(Key::Up, false);
    assert!(a.focus == Focus::Subject);
    a.handle_key(Key::Down, false);
    assert!(a.focus == Focus::Body);
    a.handle_key(Key::BackTab, false);
    assert!(a.focus == Focus::Subject);
}

#[test]
fn editing_methods() {
    let mut a = app();
    a.insert("ab\ncd");
    assert!(a.move_vert(false));
    assert_eq!(a.cur, 2);
    assert!(!a.move_vert(false));
    assert!(a.move_vert(true));
    assert_eq!(a.cur, 5);
    a.move_left();
    a.move_right();
    a.home_end(false);
    assert_eq!(a.cur, 3);
    a.delete_at();
    a.backspace();
    assert_eq!(a.body, "abd");
}

#[test]
fn quitting_spares_a_draft_once() {
    let mut a = app();
    assert!(matches!(a.handle_key(Key::Char('c'), true), Action::Quit));
    press(&mut a, "x");
    assert!(matches!(a.handle_key(Key::Char('q'), true), Action::Stay));
    assert_eq!(a.status, "unsent draft — Ctrl-C again to quit");
    assert!(matches!(a.handle_key(Key::Left, false), Action::Stay));
    assert!(matches!(a.handle_key(Key::Char('c'), true), Action::Stay));
    assert!(matches!(a.handle_key(Key::Char('c'), true), Action::Quit));
}

#[test]
fn recipients_are_picked() {
    let mut a = app();
    a.refresh(&Vec::new(), texts(&["gov@p#1"]));
    press(&mut a, "@");
    assert_eq!(a.picker, Some(0));
    // The list stays as it was when the picker opened.
    a.refresh(&Vec::new(), texts(&["abc@p#1", "gov@p#1"]));
    a.handle_key(Key::Down, false);
    a.handle_key(Key::Down, false);
    assert_eq!(a.picker, Some(1));
    press(&mut a, "z");
    assert_eq!(a.body, "");
    a.handle_key(Key::Enter, false);
    assert_eq!((a.to.as_str(), a.to_label.as_str(), a.picker), ("gov@p#1", "gov", None));
    press(&mut a, "x@");
    assert_eq!((a.body.as_str(), a.picker), ("x@", None));
    a.handle_key(Key::Char('t'), true);
    a.handle_key(Key::Up, false);
    assert_eq!(a.picker, Some(0));
    a.handle_key(Key::Esc, false);
    assert_eq!((a.picker, a.to.as_str()), (None, "gov@p#1"));
}

#[test]
fn sending_is_explicit() {
    let mut a = app();
    assert!(matches!(a.handle_key(Key::Char('s'), true), Action::Stay));
    a.insert(" \n ");
    assert!(matches!(a.handle_key(Key::Char('s'), true), Action::Stay));
    a.insert("text ");
    match a.handle_key(Key::Char('s'), true) {
        Action::Send(subject, body) => {
            assert_eq!((subject.as_str(), body.as_str()), ("", "text"));
        }
        _ => panic!("nothing to send"),
    }
    a.send_failed("why");
    assert_eq!(a.status, "send failed: why");
    assert_eq!(a.body, " \n text ");
    a.sent(Delivery::OnDiskOnly);
    assert_eq!(a.status, "on disk only — NOT committed, run sync");
    assert_eq!((a.body.as_str(), a.cur, a.scroll), ("", 0, 0));
    a.sent(Delivery::Committed);
    assert_eq!(a.status, "sent (will sync)");
    a.sent(Delivery::Pushed);
    assert_eq!(a.status, "sent ✓");
}

#[test]
fn other_keys() {
    let mut a = app();
    assert!(matches!(a.handle_key(Key::Char('r'), true), Action::Sync));
    assert_eq!(a.status, "syncing…");
    a.handle_key(Key::Char('f'), true);
    assert!(a.full);
    assert_eq!(a.status, "");
    a.handle_key(Key::PageUp, false);
    a.handle_key(Key::Up, true);
    assert_eq!(a.scroll, 9);
    a.handle_key(Key::PageDown, false);
    a.handle_key(Key::Down, true);
    a.handle_key(Key::Down, true);
    assert_eq!(a.scroll, 0);
    a.handle_key(Key::Char('x'), true);
    a.handle_key(Key::Other, false);
    a.handle_key(Key::Esc, false);
    assert_eq!(a.body, "");
}

// ---- the screen ---------------------------------------------------------------

fn shown(s: &Shown) -> String {
    match s {
        Shown::Head(name, hue, rest, mark) => format!("H {name} {hue:?}{rest} {mark:?}"),
        Shown::Bold(t) => format!("B {t}"),
        Shown::Plain(t) => format!("P {t}"),
        Shown::Dim(t) => format!("D {t}"),
    }
}

#[test]
fn conversations_are_shown() {
    let mut a = app();
    let mut long = message("2", "x@p#1", "main");
    long.body = "b".repeat(601);
    let found = vec![message("1", "x@p#1", "main"), long];
    a.refresh(&found, Vec::new());
    let lines: Vec<String> =
        conversation_lines(&a, &vec![None, None], 640).iter().map(shown).collect();
    assert_eq!(
        lines,
        [
            "H x Cyan  01:02  → all Plain".to_string(),
            "B   subj".to_string(),
            "P   body".to_string(),
            "P ".to_string(),
            "H x Cyan  01:02  → all Plain".to_string(),
            "B   subj".to_string(),
            format!("P   {}…", "b".repeat(600)),
            "D   … Ctrl-F for the full message".to_string(),
            "P ".to_string(),
        ]
    );
    let marked: Vec<String> =
        lines_at_worth(&a, &vec!["verified", "FORGED"], 640).iter().map(shown).collect();
    assert!(marked[0].ends_with("Verified"));
    assert!(marked[4].ends_with("Forged"));
    assert!(Mark::Plain != Mark::Forged);
}

#[test]
fn the_place_of_reading_is_kept() {
    let mut a = app();
    assert_eq!(anchor(&mut a, 50, 20), 30);
    a.scroll = 10;
    assert_eq!(anchor(&mut a, 55, 20), 20);
    assert_eq!(a.scroll, 15);
    a.scroll = 999;
    assert_eq!(anchor(&mut a, 55, 20), 0);
    assert_eq!(a.scroll, 35);
    assert_eq!(conversation_title(false, 3, 55, 20), " conversation  ↑3/35 ");
    assert_eq!(conversation_title(true, 0, 5, 20), " conversation · full ");
}

#[test]
fn the_compose_box_grows() {
    let mut a = app();
    assert_eq!(fit_body(&mut a, 80, 30), 4);
    assert_eq!(a.body_w, 76);
    a.insert(&"\n".repeat(50));
    assert_eq!(fit_body(&mut a, 80, 30), 13);
    assert_eq!(follow_cursor(&mut a, 10), (50, 0));
    assert_eq!(a.body_scroll, 41);
    a.handle_key(Key::Up, false);
    assert_eq!(follow_cursor(&mut a, 10), (49, 0));
    assert_eq!(a.body_scroll, 41);
    a.cur = 3;
    assert_eq!(follow_cursor(&mut a, 10), (3, 0));
    assert_eq!(a.body_scroll, 3);
    assert_eq!(fit_body(&mut a, 3, 3), 6);
    assert_eq!(a.body_w, 4);
}

#[test]
fn words_that_fit_a_line_stay_whole() {
    let text = "one two-three four five six seven-eight nine ten\n\neleven twelve 中中中 end";
    let lines = wrap(text, 24, "  ");
    for word in text.split_whitespace() {
        assert!(lines.iter().any(|l| l.contains(word)));
    }
    // One too wide is broken.
    let wide = "x".repeat(30);
    assert!(wrap(&wide, 24, "  ").iter().all(|l| !l.contains(&wide)));
}

#[test]
fn rows_are_filled_before_another_begins() {
    let text = "abcdef\ngh中中中i";
    let rows = visual_rows(text, 5);
    let shown: Vec<&str> = rows.iter().map(|(_, s)| s.as_str()).collect();
    assert_eq!(shown, ["abcde", "f", "gh中", "中中i"]);
    let chars: Vec<char> = text.chars().collect();
    for pair in rows.windows(2) {
        let end = pair[0].0 + pair[0].1.chars().count();
        if chars[end] == '\n' {
            assert_eq!(pair[1].0, end + 1);
        } else {
            assert_eq!(pair[1].0, end);
            assert!(str_w(&pair[0].1) + ch_w(chars[end]) > 5);
        }
    }
}

#[test]
fn the_body_is_shown_through_a_window() {
    let mut a = app();
    fit_body(&mut a, 80, 30);
    a.insert("one\ntwo\nthree");
    let (row, col) = follow_cursor(&mut a, 2);
    assert_eq!((row, col, a.body_scroll), (2, 5, 1));
    assert_eq!(shown_rows(&a, 2), [(false, "two".to_string()), (false, "three".to_string())]);
    assert_eq!(cursor_at(&a, row, col), (7, 1));
    a.body_scroll = 0;
    assert_eq!(
        shown_rows(&a, 9),
        [(true, "one".to_string()), (false, "two".to_string()), (false, "three".to_string())]
    );
    assert_eq!(shown_rows(&a, 1), [(true, "one".to_string())]);
    assert!(shown_rows(&a, 0).is_empty());
    assert_eq!(cursor_at(&a, row, col), (7, 2));
    assert_eq!(cursor_at(&a, 70_000, 70_000), (u16::MAX, u16::MAX));
    a.body_scroll = 8;
    assert!(shown_rows(&a, 9).is_empty());
    // In the subject the columns before the cursor count.
    a.focus = Focus::Subject;
    press(&mut a, "a中b");
    assert_eq!(cursor_at(&a, 9, 9), (9, 0));
    a.handle_key(Key::Left, false);
    assert_eq!(cursor_at(&a, 9, 9), (8, 0));
    a.subject = "中".repeat(40_000);
    a.scur = 40_000;
    assert_eq!(cursor_at(&a, 9, 9), (u16::MAX, 0));
}

#[test]
fn bars_and_hints() {
    let mut a = app();
    a.refresh(&Vec::new(), texts(&["b@p#1", "a@p#1", "owner@p#1"]));
    assert_eq!(presence_bar(&a), ("● 3 here".to_string(), "  Paul · a · b".to_string()));
    assert_eq!(
        help(&a),
        "arrows edit · Enter newline · ^S SEND · Tab fields · @ address · ^F full · PgUp/Dn scroll · ^C quit"
    );
    a.status = "x".to_string();
    assert_eq!(help(&a), "▶ x");
    press(&mut a, "@");
    assert_eq!(help(&a), "↑/↓ pick · Enter choose · Esc cancel");
    assert_eq!(picker_size(&a, 80), (32, 6));
    assert_eq!(picker_size(&a, 20), (20, 6));
}
