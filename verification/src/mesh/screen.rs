//! What the monitor shows: the conversation, how far it is scrolled, and the
//! sizes and places of what is drawn.

use vstd::prelude::*;

use crate::lists;
use crate::mesh::editor;
use crate::mesh::layout;
use crate::mesh::message;
use crate::mesh::message::Letter;
use crate::mesh::message::Message;
use crate::mesh::monitor;
use crate::mesh::monitor::App;
use crate::mesh::monitor::Focus;
use crate::mesh::monitor::Screen;
use crate::mesh::names;
use crate::mesh::names::Hue;
use crate::mesh::reading;
use crate::text;

verus! {

// ---- the conversation -----------------------------------------------------

/// The mark beside a message.
#[derive(Clone, Copy, Debug, PartialEq, Eq, Structural)]
pub enum Mark {
    Plain,
    Verified,
    Forged,
}

/// A line of the conversation.
pub enum Shown {
    /// Who writes, in which colour, when and to whom, and the mark.
    Head(String, Hue, String, Mark),
    Bold(String),
    Plain(String),
    Dim(String),
}

/// What a line of the conversation says.
pub enum Said {
    Head(Seq<char>, Hue, Seq<char>, Mark),
    Bold(Seq<char>),
    Plain(Seq<char>),
    Dim(Seq<char>),
}

impl View for Shown {
    type V = Said;

    open spec fn view(&self) -> Said {
        match self {
            Shown::Head(name, hue, rest, mark) => Said::Head(name@, *hue, rest@, *mark),
            Shown::Bold(s) => Said::Bold(s@),
            Shown::Plain(s) => Said::Plain(s@),
            Shown::Dim(s) => Said::Dim(s@),
        }
    }
}

/// What the lines of a list say.
pub open spec fn said(v: Seq<Shown>) -> Seq<Said> {
    v.map_values(|l: Shown| l@)
}

/// The mark for what a message is worth.
pub open spec fn mark_of(worth: Seq<char>) -> Mark {
    if worth == "verified"@ {
        Mark::Verified
    } else if worth == "FORGED"@ {
        Mark::Forged
    } else {
        Mark::Plain
    }
}

/// The first line for a message.
pub open spec fn head_of(m: Letter, worth: Seq<char>, called: Seq<(Seq<char>, Seq<char>)>) -> Said {
    let name = names::called(called, m.from);
    Said::Head(
        name,
        names::hue_of(name),
        "  "@ + (match reading::clock_time(m.ts) {
            Some(t) => t,
            None => ""@,
        }) + "  → "@ + (if m.to == "all"@ {
            "all"@
        } else {
            names::called(called, m.to)
        }),
        mark_of(worth),
    )
}

/// Lines in bold.
pub open spec fn in_bold(lines: Seq<Seq<char>>) -> Seq<Said> {
    lines.map_values(|l: Seq<char>| Said::Bold(l))
}

/// Lines as they are.
pub open spec fn in_plain(lines: Seq<Seq<char>>) -> Seq<Said> {
    lines.map_values(|l: Seq<char>| Said::Plain(l))
}

/// The lines for the body of a message.
pub open spec fn body_lines(m: Letter, full: bool, width: nat) -> Seq<Said> {
    let body = text::trimmed(m.body);
    if body.len() == 0 {
        Seq::empty()
    } else {
        in_plain(layout::wrapped(reading::excerpt(body, full, 600), width, "  "@)) + (if !full
            && body.len() > 600 {
            seq![Said::Dim("  … Ctrl-F for the full message"@)]
        } else {
            Seq::empty()
        })
    }
}

/// The lines for a message, with an empty one behind them.
pub open spec fn lines_for(
    m: Letter,
    worth: Seq<char>,
    called: Seq<(Seq<char>, Seq<char>)>,
    full: bool,
    width: nat,
) -> Seq<Said> {
    seq![head_of(m, worth, called)] + in_bold(
        layout::wrapped(text::trimmed(m.subject), width, "  "@),
    ) + body_lines(m, full, width) + seq![Said::Plain(""@)]
}

/// The lines of a conversation.
pub open spec fn conversation(
    v: Seq<Letter>,
    worths: Seq<Seq<char>>,
    called: Seq<(Seq<char>, Seq<char>)>,
    full: bool,
    width: nat,
) -> Seq<Said>
    decreases v.len(),
{
    if v.len() == 0 {
        Seq::empty()
    } else {
        conversation(v.drop_last(), worths, called, full, width) + lines_for(
            v.last(),
            worths[v.len() - 1],
            called,
            full,
            width,
        )
    }
}

/// Adds a line.
fn say(out: &mut Vec<Shown>, line: Shown)
    ensures
        said(final(out)@) == said(old(out)@).push(line@),
{
    let ghost before = out@;
    out.push(line);
    assert(said(out@) =~= said(before).push(line@));
}

/// Adds lines in bold.
fn say_bold(out: &mut Vec<Shown>, lines: &Vec<String>)
    ensures
        said(final(out)@) == said(old(out)@) + in_bold(text::texts(lines@)),
{
    let ghost before = said(out@);
    let ghost all = in_bold(text::texts(lines@));
    let mut i: usize = 0;
    assert(before + all.take(0) =~= before);
    while i < lines.len()
        invariant
            i <= lines@.len(),
            all == in_bold(text::texts(lines@)),
            said(out@) == before + all.take(i as int),
        decreases lines@.len() - i,
    {
        assert(all[i as int] == Said::Bold(lines@[i as int]@));
        say(out, Shown::Bold(lines[i].clone()));
        assert(said(out@) =~= before + all.take(i + 1));
        i = i + 1;
    }
    assert(all.take(i as int) =~= all);
}

/// Adds lines as they are.
fn say_plain(out: &mut Vec<Shown>, lines: &Vec<String>)
    ensures
        said(final(out)@) == said(old(out)@) + in_plain(text::texts(lines@)),
{
    let ghost before = said(out@);
    let ghost all = in_plain(text::texts(lines@));
    let mut i: usize = 0;
    assert(before + all.take(0) =~= before);
    while i < lines.len()
        invariant
            i <= lines@.len(),
            all == in_plain(text::texts(lines@)),
            said(out@) == before + all.take(i as int),
        decreases lines@.len() - i,
    {
        assert(all[i as int] == Said::Plain(lines@[i as int]@));
        say(out, Shown::Plain(lines[i].clone()));
        assert(said(out@) =~= before + all.take(i + 1));
        i = i + 1;
    }
    assert(all.take(i as int) =~= all);
}

/// The first line for a message.
fn show_head(m: &Message, worth: &str, called: &Vec<(String, String)>) -> (r: Shown)
    ensures
        r@ == head_of(m@, worth@, lists::pairs(called@)),
{
    let name = names::name_of(called, m.from.as_str());
    let hue = names::sender_color(name.as_str());
    let mut rest = String::from_str("  ");
    match text::byte_slice(m.ts.as_str(), 11, 16) {
        Some(t) => rest.append(t.as_str()),
        None => rest.append(""),
    }
    rest.append("  → ");
    if text::same(m.to.as_str(), "all") {
        rest.append("all");
    } else {
        rest.append(names::name_of(called, m.to.as_str()).as_str());
    }
    let mark = if text::same(worth, "verified") {
        Mark::Verified
    } else if text::same(worth, "FORGED") {
        Mark::Forged
    } else {
        Mark::Plain
    };
    Shown::Head(name, hue, rest, mark)
}

/// Adds the lines for a message.
fn say_message(
    out: &mut Vec<Shown>,
    m: &Message,
    worth: &str,
    called: &Vec<(String, String)>,
    full: bool,
    width: usize,
)
    ensures
        said(final(out)@) == said(old(out)@) + lines_for(
            m@,
            worth@,
            lists::pairs(called@),
            full,
            width as nat,
        ),
{
    proof {
        reveal_strlit("  ");
    }
    let ghost before = said(out@);
    say(out, show_head(m, worth, called));
    let subject = layout::wrap(text::trim(m.subject.as_str()).as_str(), width, "  ");
    say_bold(out, &subject);
    let ghost mid = said(out@);
    let body = text::trim(m.body.as_str());
    if !body.as_str().is_empty() {
        let lines = layout::wrap(
            reading::show_excerpt(body.as_str(), full, 600).as_str(),
            width,
            "  ",
        );
        say_plain(out, &lines);
        if !full && body.as_str().unicode_len() > 600 {
            say(out, Shown::Dim(String::from_str("  … Ctrl-F for the full message")));
        }
    }
    assert(said(out@) =~= mid + body_lines(m@, full, width as nat));
    say(out, Shown::Plain(String::from_str("")));
    assert(said(out@) =~= before + lines_for(
        m@,
        worth@,
        lists::pairs(called@),
        full,
        width as nat,
    ));
}

/// The lines of the conversation, where messages are worth that much.
pub fn lines_at_worth(app: &App, states: &Vec<&'static str>, width: usize) -> (r: Vec<Shown>)
    requires
        states@.len() == app.msgs@.len(),
    ensures
        said(r@) == conversation(
            app@.msgs,
            reading::worths(states@),
            app@.names,
            app@.full,
            width as nat,
        ),
{
    let ghost all = app@.msgs;
    let ghost ws = reading::worths(states@);
    let mut out: Vec<Shown> = Vec::new();
    let mut i: usize = 0;
    assert(all.take(0) =~= Seq::empty());
    assert(said(out@) =~= Seq::empty());
    while i < app.msgs.len()
        invariant
            i <= app.msgs@.len(),
            states@.len() == app.msgs@.len(),
            all == app@.msgs,
            ws == reading::worths(states@),
            said(out@) == conversation(
                all.take(i as int),
                ws,
                app@.names,
                app@.full,
                width as nat,
            ),
        decreases app.msgs@.len() - i,
    {
        proof {
            assert(all.take(i + 1).drop_last() =~= all.take(i as int));
            assert(all.take(i + 1).last() == app.msgs@[i as int]@);
            assert(ws[i as int] == states@[i as int]@);
        }
        say_message(&mut out, &app.msgs[i], states[i], &app.names, app.full, width);
        i = i + 1;
    }
    assert(all.take(i as int) =~= all);
    out
}

/// The lines of the conversation, with the records of the senders.
pub fn conversation_lines(app: &App, records: &Vec<Option<String>>, width: usize) -> (r: Vec<Shown>)
    requires
        records@.len() == app.msgs@.len(),
    ensures
        said(r@) == conversation(
            app@.msgs,
            reading::weighed(app@.msgs, records@),
            app@.names,
            app@.full,
            width as nat,
        ),
{
    let states = reading::weigh(&app.msgs, records);
    lines_at_worth(app, &states, width)
}

// ---- sizes and places -----------------------------------------------------

/// The width of the body in an area: without its frame and the mark before it.
pub open spec fn body_width(area_w: nat) -> nat {
    if area_w < 8 {
        4
    } else {
        (area_w - 4) as nat
    }
}

/// The rows that the body takes in an area: as many as it has, up to a third of
/// the area, or three.
pub open spec fn body_height(rows: nat, area_h: nat) -> nat {
    let most: nat = if area_h / 3 < 3 {
        3
    } else {
        area_h / 3
    };
    if rows < 1 {
        1
    } else if rows > most {
        most
    } else {
        rows
    }
}

/// Fits the body to an area; gives the height of the box it is written in, which
/// has a line for the subject and a frame.
pub fn fit_body(app: &mut App, area_w: u16, area_h: u16) -> (r: u16)
    requires
        old(app)@.wf(),
    ensures
        final(app)@ == (Screen { body_w: body_width(area_w as nat) as usize, ..old(app)@ }),
        final(app)@.wf(),
        r == body_height(
            editor::rows_of(old(app)@.body, body_width(area_w as nat)).len(),
            area_h as nat,
        ) + 3,
{
    let w: usize = if area_w < 8 {
        4
    } else {
        (area_w - 4) as usize
    };
    app.body_w = w;
    let rows = editor::visual_rows(app.body.as_str(), w);
    let n: usize = rows.len();
    assert(editor::rows_view(rows@).len() == n);
    let third: u16 = area_h / 3;
    let most: u16 = if third < 3 {
        3
    } else {
        third
    };
    let h: u16 = if n > most as usize {
        most
    } else {
        n as u16
    };
    h + 3
}

/// The most lines that a conversation can be scrolled up.
pub open spec fn max_scroll(total: nat, height: nat) -> nat {
    if total > height {
        (total - height) as nat
    } else {
        0
    }
}

/// The lines a conversation is scrolled up once it is shown again. While it is
/// scrolled up, it follows as many lines as came in, so that what is read stays
/// in its place.
pub open spec fn anchored(scroll: nat, last_total: nat, total: nat, height: nat) -> nat {
    let moved = if scroll > 0 && last_total > 0 && total > last_total {
        (scroll + (total - last_total)) as nat
    } else {
        scroll
    };
    if moved > max_scroll(total, height) {
        max_scroll(total, height)
    } else {
        moved
    }
}

/// The first line that is shown.
pub open spec fn offset(total: nat, height: nat, scroll: nat) -> nat {
    if max_scroll(total, height) > scroll {
        (max_scroll(total, height) - scroll) as nat
    } else {
        0
    }
}

/// Anchors a conversation of `total` lines in a window of `height`; gives the
/// first line that is shown.
pub fn anchor(app: &mut App, total: usize, height: usize) -> (r: usize)
    requires
        old(app)@.wf(),
    ensures
        final(app)@ == (Screen {
            scroll: anchored(
                old(app)@.scroll as nat,
                old(app)@.last_total as nat,
                total as nat,
                height as nat,
            ) as usize,
            last_total: total,
            ..old(app)@
        }),
        final(app)@.wf(),
        r == offset(total as nat, height as nat, final(app)@.scroll as nat),
{
    let most: usize = if total > height {
        total - height
    } else {
        0
    };
    let came: usize = if app.scroll > 0 && app.last_total > 0 && total > app.last_total {
        total - app.last_total
    } else {
        0
    };
    if app.scroll >= most || came > most - app.scroll {
        app.scroll = most;
    } else {
        app.scroll = app.scroll + came;
    }
    app.last_total = total;
    most - app.scroll
}

/// The title of the conversation.
pub fn conversation_title(full: bool, scroll: usize, total: usize, height: usize) -> (r: String)
    ensures
        r@ == " conversation "@ + (if full {
            "· full "@
        } else {
            ""@
        }) + (if max_scroll(total as nat, height as nat) == 0 {
            ""@
        } else {
            " ↑"@ + text::decimal(scroll as nat) + "/"@ + text::decimal(
                max_scroll(total as nat, height as nat),
            ) + " "@
        }),
{
    let mut pos = String::from_str("");
    if total > height {
        pos = String::from_str(" ↑");
        pos.append(text::show_usize(scroll).as_str());
        pos.append("/");
        pos.append(text::show_usize(total - height).as_str());
        pos.append(" ");
    }
    let mut r = String::from_str(" conversation ");
    r.append(
        if full {
            "· full "
        } else {
            ""
        },
    );
    r.append(pos.as_str());
    r
}

/// The first row of the body that is shown, where the cursor must be seen.
pub open spec fn following(body_scroll: nat, row: nat, height: nat) -> nat {
    if row < body_scroll {
        row
    } else if row >= body_scroll + height {
        (row + 1 - height) as nat
    } else {
        body_scroll
    }
}

/// Scrolls the body so that the cursor is seen in a window of `height` rows;
/// gives the row and the column of the cursor.
pub fn follow_cursor(app: &mut App, height: usize) -> (r: (usize, usize))
    requires
        old(app)@.wf(),
        height > 0,
    ensures
        (r.0 as int, r.1 as nat) == editor::cell_of(
            monitor::body_rows(old(app)@),
            old(app)@.cur,
        ),
        final(app)@ == (Screen {
            body_scroll: following(
                old(app)@.body_scroll as nat,
                r.0 as nat,
                height as nat,
            ) as usize,
            ..old(app)@
        }),
        final(app)@.wf(),
        final(app)@.body_scroll <= r.0,
{
    let rows = editor::visual_rows(app.body.as_str(), app.body_w);
    let (row, col) = editor::cursor_rc(&rows, app.cur);
    if row < app.body_scroll {
        app.body_scroll = row;
    } else if row - app.body_scroll >= height {
        app.body_scroll = row - (height - 1);
    }
    (row, col)
}

/// The rows of the body in a window of `height` rows, each with whether it is the
/// first of the body.
pub open spec fn body_window(s: Screen, height: nat) -> Seq<(bool, Seq<char>)> {
    let rows = monitor::body_rows(s);
    let from = if s.body_scroll < rows.len() {
        s.body_scroll as int
    } else {
        rows.len() as int
    };
    let to = if from + height < rows.len() {
        from + height
    } else {
        rows.len() as int
    };
    Seq::new((to - from) as nat, |i: int| (from + i == 0, rows[from + i].shown))
}

/// What rows that are shown say.
pub open spec fn shown_view(v: Seq<(bool, String)>) -> Seq<(bool, Seq<char>)> {
    v.map_values(|p: (bool, String)| (p.0, p.1@))
}

/// The rows of the body in a window of `height` rows.
pub fn shown_rows(app: &App, height: usize) -> (r: Vec<(bool, String)>)
    ensures
        shown_view(r@) == body_window(app@, height as nat),
{
    let rows = editor::visual_rows(app.body.as_str(), app.body_w);
    let ghost all = body_window(app@, height as nat);
    let n: usize = rows.len();
    assert(editor::rows_view(rows@) == monitor::body_rows(app@));
    assert(editor::rows_view(rows@).len() == n);
    let from: usize = if app.body_scroll < n {
        app.body_scroll
    } else {
        n
    };
    let to: usize = if height < n - from {
        from + height
    } else {
        n
    };
    let mut out: Vec<(bool, String)> = Vec::new();
    let mut i: usize = from;
    assert(shown_view(out@) =~= all.take(0));
    while i < to
        invariant
            from <= i <= to,
            to <= n,
            n == rows@.len(),
            editor::rows_view(rows@) == monitor::body_rows(app@),
            all == body_window(app@, height as nat),
            all.len() == to - from,
            forall|k: int|
                0 <= k < all.len() ==> #[trigger] all[k] == (
                    from + k == 0,
                    monitor::body_rows(app@)[from + k].shown,
                ),
            shown_view(out@) == all.take(i - from),
        decreases to - i,
    {
        let ghost was = out@;
        assert(editor::rows_view(rows@)[i as int] == editor::row_view(rows@[i as int]));
        assert(all[i - from] == (i == 0, rows@[i as int].1@));
        out.push((i == 0, rows[i].1.clone()));
        assert(shown_view(out@) =~= shown_view(was).push(all[i - from]));
        assert(shown_view(out@) =~= all.take(i + 1 - from));
        i = i + 1;
    }
    assert(all.take(to - from) =~= all);
    out
}

/// The column and the row at which the cursor stands within the part of its
/// field: in the body behind a prompt of two columns, in the subject behind one
/// of five.
pub open spec fn cursor_cell(s: Screen, row: nat, col: nat) -> (nat, nat) {
    match s.focus {
        Focus::Body => (2 + col, (row - s.body_scroll) as nat),
        Focus::Subject => (5 + layout::columns(s.subject.take(s.scur)), 0),
    }
}

/// A number as far as the screen goes.
pub open spec fn on_screen(n: nat) -> nat {
    if n > u16::MAX {
        u16::MAX as nat
    } else {
        n
    }
}

/// `a + b` as far as the screen goes.
fn screen_sum(a: usize, b: u16) -> (r: u16)
    ensures
        r == on_screen(a as nat + b as nat),
{
    if a > (u16::MAX - b) as usize {
        u16::MAX
    } else {
        a as u16 + b
    }
}

/// The column and the row at which the cursor stands within the part of its
/// field, where it has that row and column in the text of the body.
pub fn cursor_at(app: &App, row: usize, col: usize) -> (r: (u16, u16))
    requires
        app@.wf(),
        app@.body_scroll <= row,
    ensures
        (r.0 as nat, r.1 as nat) == (
            on_screen(cursor_cell(app@, row as nat, col as nat).0),
            on_screen(cursor_cell(app@, row as nat, col as nat).1),
        ),
{
    match app.focus {
        Focus::Body => (screen_sum(col, 2), screen_sum(row - app.body_scroll, 0)),
        Focus::Subject => {
            let before = text::take_chars(app.subject.as_str(), app.scur);
            assert(before@ == app@.subject.take(app@.scur));
            match layout::fitting_w(before.as_str(), u16::MAX as usize) {
                Some(w) => (screen_sum(w, 5), 0),
                None => (u16::MAX, 0),
            }
        },
    }
}

/// The names of those present, in their order, each once.
pub open spec fn names_here(s: Screen) -> Seq<Seq<char>> {
    lists::sorted_set(s.present.map_values(|id: Seq<char>| names::called(s.names, id)))
}

/// How many are here, and who.
pub fn presence_bar(app: &App) -> (r: (String, String))
    ensures
        r.0@ == "● "@ + text::decimal(names_here(app@).len()) + " here"@,
        r.1@ == "  "@ + text::joined(names_here(app@), " · "@),
{
    let ghost all = app@.present.map_values(|id: Seq<char>| names::called(app@.names, id));
    let mut found: Vec<String> = Vec::new();
    let mut i: usize = 0;
    while i < app.present.len()
        invariant
            i <= app.present@.len(),
            all == app@.present.map_values(|id: Seq<char>| names::called(app@.names, id)),
            text::texts(found@) == all.take(i as int),
        decreases app.present@.len() - i,
    {
        let name = names::name_of(&app.names, app.present[i].as_str());
        assert(app@.present[i as int] == app.present@[i as int]@);
        assert(all[i as int] == name@);
        proof {
            text::lemma_texts_push(found@, name);
        }
        found.push(name);
        assert(text::texts(found@) =~= all.take(i + 1));
        i = i + 1;
    }
    assert(all.take(i as int) =~= all);
    let names = lists::sort_set(&found);
    assert(names_here(app@) == text::texts(names@));
    let mut count = String::from_str("● ");
    count.append(text::show_usize(names.len()).as_str());
    count.append(" here");
    let mut who = String::from_str("  ");
    who.append(text::join(&names, " · ").as_str());
    (count, who)
}

/// The line at the foot: the keys, unless there is something to say.
pub open spec fn help_text(s: Screen) -> Seq<char> {
    if s.picker is Some {
        "↑/↓ pick · Enter choose · Esc cancel"@
    } else if s.status.len() == 0 {
        "arrows edit · Enter newline · ^S SEND · Tab fields · @ address · ^F full · PgUp/Dn scroll · ^C quit"@
    } else {
        "▶ "@ + s.status
    }
}

/// The line at the foot.
pub fn help(app: &App) -> (r: String)
    ensures
        r@ == help_text(app@),
{
    if app.picker.is_some() {
        String::from_str("↑/↓ pick · Enter choose · Esc cancel")
    } else if app.status.as_str().is_empty() {
        String::from_str(
            "arrows edit · Enter newline · ^S SEND · Tab fields · @ address · ^F full · PgUp/Dn scroll · ^C quit",
        )
    } else {
        let mut r = String::from_str("▶ ");
        r.append(app.status.as_str());
        r
    }
}

/// The size of the picker: a row for each that can be picked and a frame, up to
/// twelve rows, and 32 columns where there are as many.
pub fn picker_size(app: &App, area_w: u16) -> (r: (u16, u16))
    ensures
        r.0 == (if area_w < 32 {
            area_w
        } else {
            32
        }),
        r.1 == (if app@.picker_snap.len() + 2 < 12 {
            app@.picker_snap.len() + 2
        } else {
            12
        }),
{
    let n: usize = app.picker_snap.len();
    assert(app@.picker_snap.len() == n);
    let h: u16 = if n < 10 {
        n as u16 + 2
    } else {
        12
    };
    let w: u16 = if area_w < 32 {
        area_w
    } else {
        32
    };
    (w, h)
}

// ---- laws -----------------------------------------------------------------

/// While a conversation is scrolled up, what is read stays in its place however
/// many lines come in: the same line is at the top.
pub proof fn reading_place_is_kept(scroll: nat, last_total: nat, total: nat, height: nat)
    requires
        0 < scroll <= max_scroll(last_total, height),
        total >= last_total,
    ensures
        offset(total, height, anchored(scroll, last_total, total, height)) == offset(
            last_total,
            height,
            scroll,
        ),
{
}

/// A conversation that is not scrolled up shows its end whatever comes in.
pub proof fn end_is_followed(last_total: nat, total: nat, height: nat)
    ensures
        anchored(0, last_total, total, height) == 0,
        offset(total, height, 0) == max_scroll(total, height),
{
}

/// The row of the cursor is always among those shown.
pub proof fn cursor_is_seen(body_scroll: nat, row: nat, height: nat)
    requires
        height > 0,
    ensures
        following(body_scroll, row, height) <= row < following(body_scroll, row, height) + height,
{
}

/// What stands above the part that is shown: all but the last lines that the
/// window holds, less those that were scrolled back.
pub proof fn window_shows_the_end(total: nat, height: nat, scroll: nat)
    ensures
        total <= height ==> offset(total, height, scroll) == 0,
        total > height && scroll <= total - height ==> offset(total, height, scroll) == total
            - height - scroll,
        total > height && scroll > total - height ==> offset(total, height, scroll) == 0,
        anchored(scroll, 0, total, height) <= max_scroll(total, height),
{
}

/// The body stays where it is while the cursor can be seen, and moves no further
/// than to where it is seen again.
pub proof fn body_moves_as_little_as_it_can(body_scroll: nat, row: nat, height: nat)
    requires
        height > 0,
    ensures
        body_scroll <= row < body_scroll + height ==> following(body_scroll, row, height)
            == body_scroll,
        row < body_scroll ==> following(body_scroll, row, height) == row,
        row >= body_scroll + height ==> following(body_scroll, row, height) + height == row + 1,
{
}

/// The field for the body grows with its rows, up to a third of the screen, and
/// always shows one.
pub proof fn body_field_fits_its_rows(rows: nat, area_h: nat)
    ensures
        1 <= body_height(rows, area_h),
        1 <= rows <= 3 ==> body_height(rows, area_h) == rows,
        3 < rows <= area_h / 3 ==> body_height(rows, area_h) == rows,
        rows > 3 && rows > area_h / 3 ==> body_height(rows, area_h) == if area_h >= 9 {
            area_h / 3
        } else {
            3
        },
{
}

/// The marks on the screen are those of what was checked, each its own.
pub proof fn marks_tell_what_was_checked(worth: Seq<char>)
    ensures
        mark_of(worth) == Mark::Forged <==> worth == "FORGED"@,
        mark_of(worth) == Mark::Verified <==> worth == "verified"@,
{
    reveal_strlit("FORGED");
    reveal_strlit("verified");
    assert("FORGED"@.len() == 6 && "verified"@.len() == 8);
}

/// A conversation holds the lines of every message that it is given, in their
/// order.
pub proof fn conversation_holds_every_message(
    a: Seq<Letter>,
    b: Seq<Letter>,
    worths: Seq<Seq<char>>,
    called: Seq<(Seq<char>, Seq<char>)>,
    full: bool,
    width: nat,
)
    requires
        worths.len() >= a.len() + b.len(),
    ensures
        conversation(a + b, worths, called, full, width) == conversation(
            a,
            worths,
            called,
            full,
            width,
        ) + conversation(b, worths.skip(a.len() as int), called, full, width),
    decreases b.len(),
{
    let rest = worths.skip(a.len() as int);
    if b.len() == 0 {
        assert(a + b =~= a);
        assert(conversation(b, rest, called, full, width) =~= Seq::empty());
    } else {
        let c = b.drop_last();
        conversation_holds_every_message(a, c, worths, called, full, width);
        assert((a + b).drop_last() =~= a + c);
        assert((a + b).last() == b.last());
        assert(rest[b.len() - 1] == worths[a.len() + b.len() - 1]);
    }
    assert(conversation(a + b, worths, called, full, width) =~= conversation(
        a,
        worths,
        called,
        full,
        width,
    ) + conversation(b, rest, called, full, width));
}

/// What a message shows: who sent it to whom and its mark, its subject, and its
/// body, all of it where that is asked for or it is no longer than 600
/// characters.
pub proof fn messages_are_shown_whole(
    m: Letter,
    worth: Seq<char>,
    called: Seq<(Seq<char>, Seq<char>)>,
    full: bool,
    width: nat,
)
    requires
        full || text::trimmed(m.body).len() <= 600,
        text::trimmed(m.body).len() > 0,
    ensures
        ({
            let subject = layout::wrapped(text::trimmed(m.subject), width, "  "@);
            let body = layout::wrapped(text::trimmed(m.body), width, "  "@);
            let r = lines_for(m, worth, called, full, width);
            &&& r.len() == 2 + subject.len() + body.len()
            &&& r[0] matches Said::Head(name, hue, rest, mark) && name == names::called(
                called,
                m.from,
            ) && mark == mark_of(worth)
            &&& forall|i: int| 0 <= i < subject.len() ==> r[1 + i] == Said::Bold(#[trigger] subject[i])
            &&& forall|i: int|
                0 <= i < body.len() ==> r[1 + subject.len() + i] == Said::Plain(#[trigger] body[i])
        }),
{
}

/// Those who are here are named, each name once.
pub proof fn names_of_all_who_are_here(s: Screen, name: Seq<char>)
    ensures
        names_here(s).contains(name) <==> exists|i: int|
            0 <= i < s.present.len() && names::called(s.names, #[trigger] s.present[i]) == name,
{
    let all = s.present.map_values(|id: Seq<char>| names::called(s.names, id));
    lists::sorted_set_is_a_set(all);
    if all.contains(name) {
        let k = choose|k: int| 0 <= k < all.len() && all[k] == name;
        assert(names::called(s.names, s.present[k]) == name);
    }
    if exists|i: int|
        0 <= i < s.present.len() && names::called(s.names, #[trigger] s.present[i]) == name {
        let i = choose|i: int|
            0 <= i < s.present.len() && names::called(s.names, #[trigger] s.present[i]) == name;
        assert(all[i] == name);
    }
}

/// The rows of the body that are shown are those from the first that is scrolled
/// to, as many as fit; the first row of all is marked as such.
pub proof fn body_shows_the_rows_scrolled_to(s: Screen, height: nat, i: int)
    ensures
        ({
            let rows = monitor::body_rows(s);
            let shown = body_window(s, height);
            &&& shown.len() <= height
            &&& s.body_scroll + height <= rows.len() ==> shown.len() == height
            &&& s.body_scroll <= rows.len() < s.body_scroll + height ==> shown.len() == rows.len()
                - s.body_scroll
            &&& 0 <= i < shown.len() ==> shown[i] == (
                s.body_scroll + i == 0,
                rows[s.body_scroll + i].shown,
            )
        }),
{
}

} // verus!
