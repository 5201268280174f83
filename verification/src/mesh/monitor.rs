//! The live monitor: what it shows, and what each key does.

use vstd::prelude::*;

use crate::lists;
use crate::mesh::delivery::Delivery;
use crate::mesh::editor;
use crate::mesh::layout;
use crate::mesh::message;
use crate::mesh::message::Letter;
use crate::mesh::message::Message;
use crate::mesh::names;
use crate::mesh::names::Hue;
use crate::mesh::node;
use crate::mesh::node::Config;
use crate::mesh::reading;
use crate::text;

verus! {

// ---- state ----------------------------------------------------------------

/// The field that keys go to.
#[derive(Clone, Copy, Debug, PartialEq, Eq, Structural)]
pub enum Focus {
    Subject,
    Body,
}

/// The state of the monitor.
pub struct App {
    pub cfg: Config,
    pub room: Option<String>,
    pub room_label: String,
    pub msgs: Vec<Message>,
    pub present: Vec<String>,
    /// Identifiers and their names.
    pub names: Vec<(String, String)>,
    /// How many lines the conversation is scrolled up from its end.
    pub scroll: usize,
    pub full: bool,
    pub subject: String,
    /// The cursor in the subject, in characters.
    pub scur: usize,
    pub body: String,
    /// The cursor in the body, in characters.
    pub cur: usize,
    /// The first row of the body that is shown.
    pub body_scroll: usize,
    /// The width that the body is broken at.
    pub body_w: usize,
    /// How many lines the conversation had when it was last shown.
    pub last_total: usize,
    /// Whether the next request to quit drops the draft.
    pub quit_armed: bool,
    /// The room that a message goes to.
    pub post_room: String,
    pub focus: Focus,
    pub to: String,
    pub to_label: String,
    /// The row of the picker that is marked, while it is open.
    pub picker: Option<usize>,
    /// What can be picked, as it was when the picker opened.
    pub picker_snap: Vec<(String, String)>,
    pub status: String,
}

/// What the state of the monitor says.
pub struct Screen {
    pub node: node::Node,
    pub room: Option<Seq<char>>,
    pub room_label: Seq<char>,
    pub msgs: Seq<Letter>,
    pub present: Seq<Seq<char>>,
    pub names: Seq<(Seq<char>, Seq<char>)>,
    pub scroll: usize,
    pub full: bool,
    pub subject: Seq<char>,
    pub scur: int,
    pub body: Seq<char>,
    pub cur: int,
    pub body_scroll: usize,
    pub body_w: usize,
    pub last_total: usize,
    pub quit_armed: bool,
    pub post_room: Seq<char>,
    pub focus: Focus,
    pub to: Seq<char>,
    pub to_label: Seq<char>,
    pub picker: Option<usize>,
    pub picker_snap: Seq<(Seq<char>, Seq<char>)>,
    pub status: Seq<char>,
}

impl View for App {
    type V = Screen;

    open spec fn view(&self) -> Screen {
        Screen {
            node: self.cfg@,
            room: text::opt_string(self.room),
            room_label: self.room_label@,
            msgs: message::letters_of(self.msgs@),
            present: text::texts(self.present@),
            names: lists::pairs(self.names@),
            scroll: self.scroll,
            full: self.full,
            subject: self.subject@,
            scur: self.scur as int,
            body: self.body@,
            cur: self.cur as int,
            body_scroll: self.body_scroll,
            body_w: self.body_w,
            last_total: self.last_total,
            quit_armed: self.quit_armed,
            post_room: self.post_room@,
            focus: self.focus,
            to: self.to@,
            to_label: self.to_label@,
            picker: self.picker,
            picker_snap: lists::pairs(self.picker_snap@),
            status: self.status@,
        }
    }
}

impl Screen {
    /// Whether the cursors stand in their texts and the picker on one of its
    /// rows.
    pub open spec fn wf(self) -> bool {
        &&& 0 <= self.scur <= self.subject.len()
        &&& 0 <= self.cur <= self.body.len()
        &&& self.picker matches Some(sel) ==> sel < self.picker_snap.len()
    }

    /// Whether nothing is written.
    pub open spec fn is_blank(self) -> bool {
        self.subject.len() == 0 && self.body.len() == 0
    }
}

/// The monitor as it starts.
pub open spec fn opened(n: node::Node, room: Option<Seq<char>>, full: bool) -> Screen {
    Screen {
        node: n,
        room,
        room_label: match room {
            Some(r) => r,
            None => text::joined(n.rooms, ","@),
        },
        msgs: Seq::empty(),
        present: Seq::empty(),
        names: Seq::empty(),
        scroll: 0,
        full,
        subject: Seq::empty(),
        scur: 0,
        body: Seq::empty(),
        cur: 0,
        body_scroll: 0,
        body_w: 60,
        last_total: 0,
        quit_armed: false,
        post_room: match room {
            Some(r) => r,
            None => if n.rooms.len() > 0 {
                n.rooms[0]
            } else {
                "main"@
            },
        },
        focus: Focus::Body,
        to: "all"@,
        to_label: "everyone"@,
        picker: None,
        picker_snap: Seq::empty(),
        status: Seq::empty(),
    }
}

/// What the recipient of a message is shown as.
pub open spec fn recipient(to: Seq<char>, names: Seq<(Seq<char>, Seq<char>)>) -> Seq<char> {
    if to == "all"@ {
        "everyone"@
    } else {
        names::called(names, to)
    }
}

/// The senders of messages.
pub open spec fn senders(v: Seq<Letter>) -> Seq<Seq<char>> {
    v.map_values(|m: Letter| m.from)
}

/// The monitor once it has taken in the messages that were found in several
/// places, each once and in their order, and who is present.
pub open spec fn refreshed(s: Screen, found: Seq<Letter>, present: Seq<Seq<char>>) -> Screen {
    let msgs = message::in_rooms(
        message::in_order(message::arrivals(found)),
        match s.room {
            Some(r) => seq![r],
            None => s.node.rooms,
        },
    );
    let ids = senders(msgs) + present + seq![s.node.id];
    let called = names::named(lists::sorted_set(ids), lists::sorted_set(present));
    Screen { msgs, present, names: called, to_label: recipient(s.to, called), ..s }
}

// ---- time -----------------------------------------------------------------

/// After so many milliseconds the monitor looks for messages again.
pub const REFRESH_MILLIS: u128 = 600;

/// After so many milliseconds it fetches what others sent.
pub const SYNC_MILLIS: u128 = 15_000;

/// What is due.
pub struct Due {
    pub refresh: bool,
    pub sync: bool,
}

/// What is due, so many milliseconds after it was done last. Messages are
/// fetched only where they are looked for too.
pub fn due(since_refresh: u128, since_sync: u128) -> (r: Due)
    ensures
        r.refresh == (since_refresh >= REFRESH_MILLIS),
        r.sync == (r.refresh && since_sync >= SYNC_MILLIS),
{
    let refresh = since_refresh >= REFRESH_MILLIS;
    Due { refresh, sync: refresh && since_sync >= SYNC_MILLIS }
}

/// What shows that there is something new: how many messages there are, which is
/// the last, and how many are present.
pub open spec fn sight_of(s: Screen) -> (nat, Option<Seq<char>>, nat) {
    (
        s.msgs.len(),
        if s.msgs.len() > 0 {
            Some(s.msgs.last().id)
        } else {
            None
        },
        s.present.len(),
    )
}

// ---- keys -----------------------------------------------------------------

/// A key.
#[derive(Clone, Copy, Debug, PartialEq, Eq, Structural)]
pub enum Key {
    Char(char),
    Up,
    Down,
    Left,
    Right,
    Home,
    End,
    PageUp,
    PageDown,
    Tab,
    BackTab,
    Enter,
    Esc,
    Backspace,
    Delete,
    Other,
}

/// What is to be done after a key.
pub enum Action {
    Stay,
    Quit,
    /// Take in what others pushed.
    Sync,
    /// Send a message with that subject and body.
    Send(String, String),
}

/// What is to be done after a key.
pub enum Deed {
    Stay,
    Quit,
    Sync,
    Send(Seq<char>, Seq<char>),
}

impl View for Action {
    type V = Deed;

    open spec fn view(&self) -> Deed {
        match self {
            Action::Stay => Deed::Stay,
            Action::Quit => Deed::Quit,
            Action::Sync => Deed::Sync,
            Action::Send(s, b) => Deed::Send(s@, b@),
        }
    }
}

/// What can be written of a text in the subject, which has one line.
pub open spec fn on_one_line(s: Seq<char>) -> Seq<char> {
    text::replaced(text::replaced(s, '\n', " "@), '\r', " "@)
}

/// The monitor once a text is written where the cursor stands.
pub open spec fn written(s: Screen, t: Seq<char>) -> Screen {
    match s.focus {
        Focus::Subject => Screen {
            subject: editor::inserted(s.subject, s.scur, on_one_line(t)),
            scur: s.scur + on_one_line(t).len(),
            ..s
        },
        Focus::Body => Screen {
            body: editor::inserted(s.body, s.cur, text::replaced(t, '\r', ""@)),
            cur: s.cur + text::replaced(t, '\r', ""@).len(),
            ..s
        },
    }
}

/// The monitor once the character before the cursor is taken out.
pub open spec fn backspaced(s: Screen) -> Screen {
    match s.focus {
        Focus::Subject => if s.scur > 0 {
            Screen {
                subject: editor::without(s.subject, s.scur - 1),
                scur: s.scur - 1,
                ..s
            }
        } else {
            s
        },
        Focus::Body => if s.cur > 0 {
            Screen { body: editor::without(s.body, s.cur - 1), cur: s.cur - 1, ..s }
        } else {
            s
        },
    }
}

/// The monitor once the character at the cursor is taken out.
pub open spec fn deleted(s: Screen) -> Screen {
    match s.focus {
        Focus::Subject => if s.scur < s.subject.len() {
            Screen { subject: editor::without(s.subject, s.scur), ..s }
        } else {
            s
        },
        Focus::Body => if s.cur < s.body.len() {
            Screen { body: editor::without(s.body, s.cur), ..s }
        } else {
            s
        },
    }
}

/// The monitor once the cursor has moved a character to the left.
pub open spec fn moved_left(s: Screen) -> Screen {
    match s.focus {
        Focus::Subject => Screen {
            scur: if s.scur > 0 {
                s.scur - 1
            } else {
                0
            },
            ..s
        },
        Focus::Body => Screen {
            cur: if s.cur > 0 {
                s.cur - 1
            } else {
                0
            },
            ..s
        },
    }
}

/// The monitor once the cursor has moved a character to the right.
pub open spec fn moved_right(s: Screen) -> Screen {
    match s.focus {
        Focus::Subject => Screen {
            scur: if s.scur < s.subject.len() {
                s.scur + 1
            } else {
                s.scur
            },
            ..s
        },
        Focus::Body => Screen {
            cur: if s.cur < s.body.len() {
                s.cur + 1
            } else {
                s.cur
            },
            ..s
        },
    }
}

/// The rows of the body.
pub open spec fn body_rows(s: Screen) -> Seq<editor::Row> {
    editor::rows_of(s.body, s.body_w as nat)
}

/// The row that the cursor stands in.
pub open spec fn cursor_row(s: Screen) -> int {
    editor::cell_of(body_rows(s), s.cur).0
}

/// The place in a row that is as many characters from its start as the cursor is
/// from that of its own, or the end of the row.
pub open spec fn place_in_row(s: Screen, r: int) -> int {
    let row = body_rows(s)[r];
    let col = s.cur - body_rows(s)[cursor_row(s)].start;
    row.start + (if col < row.shown.len() {
        col
    } else {
        row.shown.len() as int
    })
}

/// The monitor once the cursor has moved a row up or down, as far as there is
/// one.
pub open spec fn moved_vertically(s: Screen, down: bool) -> Screen {
    let r = cursor_row(s);
    if down {
        if r + 1 < body_rows(s).len() {
            Screen { cur: place_in_row(s, r + 1), ..s }
        } else {
            s
        }
    } else if r > 0 {
        Screen { cur: place_in_row(s, r - 1), ..s }
    } else {
        s
    }
}

/// The monitor once the cursor has moved to the start or the end of its line.
pub open spec fn moved_to_edge(s: Screen, end: bool) -> Screen {
    match s.focus {
        Focus::Subject => Screen {
            scur: if end {
                s.subject.len() as int
            } else {
                0
            },
            ..s
        },
        Focus::Body => {
            let row = body_rows(s)[cursor_row(s)];
            Screen {
                cur: if end {
                    row.start + row.shown.len()
                } else {
                    row.start
                },
                ..s
            }
        },
    }
}

/// Whether a pair comes before another: by the name, then by the identifier.
pub open spec fn picked_before(a: (Seq<char>, Seq<char>), b: (Seq<char>, Seq<char>)) -> bool {
    text::before(a.1, b.1) || (a.1 == b.1 && text::before(a.0, b.0))
}

/// A list with one more pair, behind all that it does not come before.
pub open spec fn placed(
    v: Seq<(Seq<char>, Seq<char>)>,
    x: (Seq<char>, Seq<char>),
) -> Seq<(Seq<char>, Seq<char>)>
    decreases v.len(),
{
    if v.len() == 0 || !picked_before(x, v.last()) {
        v.push(x)
    } else {
        placed(v.drop_last(), x).push(v.last())
    }
}

/// The identifiers of a list with their names, in the order of the picker.
pub open spec fn candidates(
    ids: Seq<Seq<char>>,
    names: Seq<(Seq<char>, Seq<char>)>,
) -> Seq<(Seq<char>, Seq<char>)>
    decreases ids.len(),
{
    if ids.len() == 0 {
        Seq::empty()
    } else {
        placed(candidates(ids.drop_last(), names), (ids.last(), names::called(names, ids.last())))
    }
}

/// What can be picked: everyone first, then those present in the order of their
/// names.
pub open spec fn targets(
    present: Seq<Seq<char>>,
    names: Seq<(Seq<char>, Seq<char>)>,
) -> Seq<(Seq<char>, Seq<char>)> {
    seq![("all"@, "everyone"@)] + candidates(lists::sorted_set(present), names)
}

/// The monitor once the picker is open.
pub open spec fn picking(s: Screen) -> Screen {
    Screen { picker_snap: targets(s.present, s.names), picker: Some(0), ..s }
}

/// What a key does while the picker is open.
pub open spec fn picker_key(s: Screen, key: Key) -> Screen {
    let sel = s.picker->0;
    let last = if s.picker_snap.len() > 0 {
        s.picker_snap.len() - 1
    } else {
        0
    };
    match key {
        Key::Up => Screen {
            picker: Some(
                if sel > 0 {
                    (sel - 1) as usize
                } else {
                    0
                },
            ),
            ..s
        },
        Key::Down => Screen {
            picker: Some(
                if sel + 1 < last {
                    (sel + 1) as usize
                } else {
                    last as usize
                },
            ),
            ..s
        },
        Key::Esc => Screen { picker: None, ..s },
        Key::Enter => Screen {
            to: s.picker_snap[sel as int].0,
            to_label: s.picker_snap[sel as int].1,
            picker: None,
            ..s
        },
        _ => s,
    }
}

/// The lines that the conversation is scrolled up, `by` lines further.
pub open spec fn scrolled_up(scroll: usize, by: nat) -> usize {
    if scroll + by > usize::MAX {
        usize::MAX
    } else {
        (scroll + by) as usize
    }
}

/// The lines that the conversation is scrolled up, `by` lines less.
pub open spec fn scrolled_down(scroll: usize, by: nat) -> usize {
    if scroll < by {
        0
    } else {
        (scroll - by) as usize
    }
}

/// The monitor once up was pressed: from the first row of the body the cursor
/// goes to the subject.
pub open spec fn went_up(s: Screen) -> Screen {
    if s.focus == Focus::Body && cursor_row(s) == 0 {
        Screen { focus: Focus::Subject, ..s }
    } else if s.focus == Focus::Body {
        moved_vertically(s, false)
    } else {
        s
    }
}

/// The monitor once down was pressed.
pub open spec fn went_down(s: Screen) -> Screen {
    if s.focus == Focus::Subject {
        Screen { focus: Focus::Body, ..s }
    } else {
        moved_vertically(s, true)
    }
}

/// The monitor with the other field in focus.
pub open spec fn other_field(s: Screen) -> Screen {
    Screen {
        focus: if s.focus == Focus::Subject {
            Focus::Body
        } else {
            Focus::Subject
        },
        ..s
    }
}

/// What a key with Ctrl does, beside what the key does anyway.
pub open spec fn control_key(s: Screen, armed: bool, c: char) -> (Screen, Deed) {
    if c == 'c' || c == 'q' {
        if !s.is_blank() && !armed {
            (
                Screen {
                    quit_armed: true,
                    status: "unsent draft — Ctrl-C again to quit"@,
                    ..s
                },
                Deed::Stay,
            )
        } else {
            (s, Deed::Quit)
        }
    } else if c == 'f' {
        (Screen { full: !s.full, ..s }, Deed::Stay)
    } else if c == 'r' {
        (Screen { status: "syncing…"@, ..s }, Deed::Sync)
    } else if c == 't' || (c == '@' && s.is_blank()) {
        (picking(s), Deed::Stay)
    } else if c == 's' {
        let subject = text::trimmed(s.subject);
        let body = text::trimmed(s.body);
        if subject.len() > 0 || body.len() > 0 {
            (s, Deed::Send(subject, body))
        } else {
            (s, Deed::Stay)
        }
    } else {
        (s, Deed::Stay)
    }
}

/// What a key does while the picker is closed; `armed` says whether the key
/// before it armed quitting.
pub open spec fn editor_key(s: Screen, armed: bool, key: Key, ctrl: bool) -> (Screen, Deed) {
    match key {
        Key::Char(c) => if ctrl {
            control_key(s, armed, c)
        } else if c == '@' && s.is_blank() {
            (picking(s), Deed::Stay)
        } else {
            (written(s, seq![c]), Deed::Stay)
        },
        Key::Tab => (other_field(s), Deed::Stay),
        Key::BackTab => (other_field(s), Deed::Stay),
        Key::PageUp => (Screen { scroll: scrolled_up(s.scroll, 8), ..s }, Deed::Stay),
        Key::PageDown => (Screen { scroll: scrolled_down(s.scroll, 8), ..s }, Deed::Stay),
        Key::Up => if ctrl {
            (Screen { scroll: scrolled_up(s.scroll, 1), ..s }, Deed::Stay)
        } else {
            (went_up(s), Deed::Stay)
        },
        Key::Down => if ctrl {
            (Screen { scroll: scrolled_down(s.scroll, 1), ..s }, Deed::Stay)
        } else {
            (went_down(s), Deed::Stay)
        },
        Key::Left => (moved_left(s), Deed::Stay),
        Key::Right => (moved_right(s), Deed::Stay),
        Key::Home => (moved_to_edge(s, false), Deed::Stay),
        Key::End => (moved_to_edge(s, true), Deed::Stay),
        Key::Delete => (deleted(s), Deed::Stay),
        Key::Enter => if s.focus == Focus::Subject {
            (Screen { focus: Focus::Body, ..s }, Deed::Stay)
        } else {
            (written(s, "\n"@), Deed::Stay)
        },
        Key::Backspace => (backspaced(s), Deed::Stay),
        Key::Esc => (s, Deed::Stay),
        Key::Other => (s, Deed::Stay),
    }
}

/// What a key does.
pub open spec fn pressed(s: Screen, key: Key, ctrl: bool) -> (Screen, Deed) {
    if s.picker is Some {
        (picker_key(s, key), Deed::Stay)
    } else {
        editor_key(
            Screen { status: Seq::empty(), quit_armed: false, ..s },
            s.quit_armed,
            key,
            ctrl,
        )
    }
}

/// What is said of a delivery. A message that is only on disk is never said to
/// be sent.
pub open spec fn sent_status(d: Delivery) -> Seq<char> {
    match d {
        Delivery::Pushed => "sent ✓"@,
        Delivery::Committed => "sent (will sync)"@,
        Delivery::OnDiskOnly => "on disk only — NOT committed, run sync"@,
    }
}

/// The monitor once a message was sent: the draft is gone.
pub open spec fn after_send(s: Screen, d: Delivery) -> Screen {
    Screen {
        status: sent_status(d),
        subject: Seq::empty(),
        body: Seq::empty(),
        scur: 0,
        cur: 0,
        body_scroll: 0,
        scroll: 0,
        ..s
    }
}

// ---- the state under keys -------------------------------------------------

proof fn lemma_rows(s: Screen)
    requires
        s.wf(),
    ensures
        0 <= cursor_row(s) < body_rows(s).len(),
        body_rows(s)[cursor_row(s)].start <= s.cur,
        forall|i: int|
            0 <= i < body_rows(s).len() ==> 0 <= (#[trigger] body_rows(s)[i]).start
                && body_rows(s)[i].start + body_rows(s)[i].shown.len() <= s.body.len(),
{
    editor::cursor_stands_in_its_row(s.body, s.body_w as nat, s.cur);
    editor::rows_show_the_text(s.body, s.body_w as nat);
    let rows = body_rows(s);
    assert forall|i: int| 0 <= i < rows.len() implies 0 <= (#[trigger] rows[i]).start
        && rows[i].start + rows[i].shown.len() <= s.body.len() by {
        assert(editor::shows(s.body, rows[i], editor::row_width(s.body_w as nat)));
    }
}

impl App {
    /// The monitor as it starts.
    pub fn new(cfg: Config, room: Option<String>, full: bool) -> (r: App)
        ensures
            r@ == opened(cfg@, text::opt_string(room), full),
            r@.wf(),
    {
        let room_label = match &room {
            Some(x) => x.clone(),
            None => text::join(&cfg.rooms, ","),
        };
        let post_room = match &room {
            Some(x) => x.clone(),
            None => if cfg.rooms.len() > 0 {
                assert(text::texts(cfg.rooms@)[0] == cfg.rooms@[0]@);
                cfg.rooms[0].clone()
            } else {
                node::default_room()
            },
        };
        let app = App {
            cfg,
            room,
            room_label,
            msgs: Vec::new(),
            present: Vec::new(),
            names: Vec::new(),
            scroll: 0,
            full,
            subject: String::new(),
            scur: 0,
            body: String::new(),
            cur: 0,
            body_scroll: 0,
            body_w: 60,
            last_total: 0,
            quit_armed: false,
            post_room,
            focus: Focus::Body,
            to: String::from_str("all"),
            to_label: String::from_str("everyone"),
            picker: None,
            picker_snap: Vec::new(),
            status: String::new(),
        };
        proof {
            assert(message::letters_of(app.msgs@) =~= Seq::empty());
            assert(text::texts(app.present@) =~= Seq::empty());
            assert(lists::pairs(app.names@) =~= Seq::empty());
            assert(lists::pairs(app.picker_snap@) =~= Seq::empty());
        }
        app
    }

    /// What shows that there is something new.
    pub fn sight(&self) -> (r: (usize, Option<String>, usize))
        ensures
            (r.0 as nat, text::opt_string(r.1), r.2 as nat) == sight_of(self@),
    {
        let n: usize = self.msgs.len();
        let last = if n > 0 {
            Some(self.msgs[n - 1].id.clone())
        } else {
            None
        };
        (n, last, self.present.len())
    }

    /// Takes in the messages that were found, and who is present.
    pub fn refresh(&mut self, found: &Vec<Message>, present: Vec<String>)
        ensures
            final(self)@ == refreshed(
                old(self)@,
                message::letters_of(found@),
                text::texts(present@),
            ),
            old(self)@.wf() ==> final(self)@.wf(),
    {
        let room: Option<&str> = match &self.room {
            Some(r) => Some(r.as_str()),
            None => None,
        };
        let rooms = message::wanted_rooms(room, &self.cfg);
        let msgs = message::filter_rooms(&message::sorted_msgs(found), &rooms);
        let ghost letters = message::letters_of(msgs@);
        let mut ids: Vec<String> = Vec::new();
        let mut i: usize = 0;
        assert(text::texts(ids@) =~= senders(letters).take(0));
        while i < msgs.len()
            invariant
                i <= msgs@.len(),
                letters == message::letters_of(msgs@),
                text::texts(ids@) == senders(letters).take(i as int),
            decreases msgs@.len() - i,
        {
            let ghost was = ids@;
            ids.push(msgs[i].from.clone());
            proof {
                text::lemma_texts_push(was, ids@.last());
                assert(letters[i as int] == msgs@[i as int]@);
                assert(text::texts(ids@) =~= senders(letters).take(i + 1));
            }
            i = i + 1;
        }
        assert(senders(letters).take(i as int) =~= senders(letters));
        let mut here = lists::copy(&present);
        let ghost x = ids@;
        let ghost y = here@;
        ids.append(&mut here);
        assert(text::texts(ids@) =~= text::texts(x) + text::texts(y));
        let ghost z = ids@;
        ids.push(self.cfg.id.clone());
        proof {
            text::lemma_texts_push(z, ids@.last());
            assert(text::texts(ids@) =~= senders(letters) + text::texts(present@) + seq![
                self.cfg@.id,
            ]);
        }
        let called = names::display_map(&ids, &present);
        let label = if text::same(self.to.as_str(), "all") {
            String::from_str("everyone")
        } else {
            names::name_of(&called, self.to.as_str())
        };
        self.msgs = msgs;
        self.present = present;
        self.names = called;
        self.to_label = label;
    }

    /// Writes a text where the cursor stands.
    pub fn insert(&mut self, s: &str)
        requires
            old(self)@.wf(),
        ensures
            final(self)@ == written(old(self)@, s@),
            final(self)@.wf(),
    {
        match self.focus {
            Focus::Subject => {
                let t = text::replace_char(text::replace_char(s, '\n', " ").as_str(), '\r', " ");
                let (subject, scur) = editor::insert_at(
                    self.subject.as_str(),
                    self.scur,
                    t.as_str(),
                );
                self.subject = subject;
                self.scur = scur;
            },
            Focus::Body => {
                let t = text::replace_char(s, '\r', "");
                let (body, cur) = editor::insert_at(self.body.as_str(), self.cur, t.as_str());
                self.body = body;
                self.cur = cur;
            },
        }
    }

    /// Takes out the character before the cursor.
    pub fn backspace(&mut self)
        requires
            old(self)@.wf(),
        ensures
            final(self)@ == backspaced(old(self)@),
            final(self)@.wf(),
    {
        match self.focus {
            Focus::Subject => {
                if self.scur > 0 {
                    let at: usize = self.scur - 1;
                    self.subject = editor::remove_at(self.subject.as_str(), at);
                    self.scur = at;
                }
            },
            Focus::Body => {
                if self.cur > 0 {
                    let at: usize = self.cur - 1;
                    self.body = editor::remove_at(self.body.as_str(), at);
                    self.cur = at;
                }
            },
        }
    }

    /// Takes out the character at the cursor.
    pub fn delete_at(&mut self)
        requires
            old(self)@.wf(),
        ensures
            final(self)@ == deleted(old(self)@),
            final(self)@.wf(),
    {
        match self.focus {
            Focus::Subject => {
                if self.scur < self.subject.as_str().unicode_len() {
                    self.subject = editor::remove_at(self.subject.as_str(), self.scur);
                }
            },
            Focus::Body => {
                if self.cur < self.body.as_str().unicode_len() {
                    self.body = editor::remove_at(self.body.as_str(), self.cur);
                }
            },
        }
    }

    /// Moves the cursor a character to the left.
    pub fn move_left(&mut self)
        requires
            old(self)@.wf(),
        ensures
            final(self)@ == moved_left(old(self)@),
            final(self)@.wf(),
    {
        match self.focus {
            Focus::Subject => {
                if self.scur > 0 {
                    self.scur = self.scur - 1;
                }
            },
            Focus::Body => {
                if self.cur > 0 {
                    self.cur = self.cur - 1;
                }
            },
        }
    }

    /// Moves the cursor a character to the right.
    pub fn move_right(&mut self)
        requires
            old(self)@.wf(),
        ensures
            final(self)@ == moved_right(old(self)@),
            final(self)@.wf(),
    {
        match self.focus {
            Focus::Subject => {
                if self.scur < self.subject.as_str().unicode_len() {
                    self.scur = self.scur + 1;
                }
            },
            Focus::Body => {
                if self.cur < self.body.as_str().unicode_len() {
                    self.cur = self.cur + 1;
                }
            },
        }
    }

    /// Moves the cursor a row up or down in the body; gives `false` where it
    /// would leave the body upwards.
    pub fn move_vert(&mut self, down: bool) -> (r: bool)
        requires
            old(self)@.wf(),
        ensures
            final(self)@ == moved_vertically(old(self)@, down),
            final(self)@.wf(),
            r == (down || cursor_row(old(self)@) > 0),
    {
        let limit: usize = self.body.as_str().unicode_len();
        let rows = editor::visual_rows(self.body.as_str(), self.body_w);
        let ghost s = self@;
        let ghost all = body_rows(s);
        proof {
            lemma_rows(s);
            assert(editor::rows_view(rows@) == all);
        }
        let (r, _col) = editor::cursor_rc(&rows, self.cur);
        assert(all[r as int] == editor::row_view(rows@[r as int]));
        let col: usize = self.cur - rows[r].0;
        let n: usize = rows.len();
        if down {
            if r + 1 < n {
                let len: usize = rows[r + 1].1.as_str().unicode_len();
                assert(all[r + 1] == editor::row_view(rows@[r + 1]));
                assert(rows@[r + 1].0 + rows@[r + 1].1@.len() <= limit);
                self.cur = rows[r + 1].0 + if col < len {
                    col
                } else {
                    len
                };
            }
            true
        } else if r == 0 {
            false
        } else {
            let len: usize = rows[r - 1].1.as_str().unicode_len();
            assert(all[r - 1] == editor::row_view(rows@[r - 1]));
            assert(rows@[r - 1].0 + rows@[r - 1].1@.len() <= limit);
            self.cur = rows[r - 1].0 + if col < len {
                col
            } else {
                len
            };
            true
        }
    }

    /// Moves the cursor to the start or the end of its line.
    pub fn home_end(&mut self, end: bool)
        requires
            old(self)@.wf(),
        ensures
            final(self)@ == moved_to_edge(old(self)@, end),
            final(self)@.wf(),
    {
        match self.focus {
            Focus::Subject => {
                self.scur = if end {
                    self.subject.as_str().unicode_len()
                } else {
                    0
                };
            },
            Focus::Body => {
                let limit: usize = self.body.as_str().unicode_len();
                let rows = editor::visual_rows(self.body.as_str(), self.body_w);
                let ghost s = self@;
                let ghost all = body_rows(s);
                proof {
                    lemma_rows(s);
                    assert(editor::rows_view(rows@) == all);
                }
                let (r, _col) = editor::cursor_rc(&rows, self.cur);
                assert(all[r as int] == editor::row_view(rows@[r as int]));
                assert(rows@[r as int].0 + rows@[r as int].1@.len() <= limit);
                self.cur = if end {
                    rows[r].0 + rows[r].1.as_str().unicode_len()
                } else {
                    rows[r].0
                };
            },
        }
    }

    /// What can be picked: everyone first, then those present in the order of
    /// their names.
    pub fn picker_targets(&self) -> (r: Vec<(String, String)>)
        ensures
            lists::pairs(r@) == targets(self@.present, self@.names),
            r@.len() > 0,
    {
        let ids = lists::sort_set(&self.present);
        let ghost set = text::texts(ids@);
        let ghost called = self@.names;
        let mut rest: Vec<(String, String)> = Vec::new();
        let mut i: usize = 0;
        assert(set.take(0) =~= Seq::empty());
        assert(lists::pairs(rest@) =~= Seq::empty());
        while i < ids.len()
            invariant
                i <= ids@.len(),
                set == text::texts(ids@),
                called == self@.names,
                lists::pairs(rest@) == candidates(set.take(i as int), called),
            decreases ids@.len() - i,
        {
            let p = (ids[i].clone(), names::name_of(&self.names, ids[i].as_str()));
            proof {
                assert(set.take(i + 1).drop_last() =~= set.take(i as int));
                assert(set.take(i + 1).last() == ids@[i as int]@);
            }
            place_pair(&mut rest, p);
            i = i + 1;
        }
        assert(set.take(i as int) =~= set);
        let mut out: Vec<(String, String)> = Vec::new();
        out.push((String::from_str("all"), String::from_str("everyone")));
        let ghost x = out@;
        let ghost y = rest@;
        out.append(&mut rest);
        assert(lists::pairs(out@) =~= lists::pairs(x) + lists::pairs(y));
        assert(lists::pairs(x) =~= seq![("all"@, "everyone"@)]);
        out
    }

    /// Opens the picker.
    fn open_picker(&mut self)
        requires
            old(self)@.wf(),
        ensures
            final(self)@ == picking(old(self)@),
            final(self)@.wf(),
    {
        self.picker_snap = self.picker_targets();
        self.picker = Some(0);
    }

    /// What a key does while the picker is open.
    fn pick(&mut self, sel: usize, key: Key)
        requires
            old(self)@.wf(),
            old(self)@.picker == Some(sel),
        ensures
            final(self)@ == picker_key(old(self)@, key),
            final(self)@.wf(),
    {
        match key {
            Key::Up => {
                self.picker = Some(
                    if sel > 0 {
                        sel - 1
                    } else {
                        0
                    },
                );
            },
            Key::Down => {
                let last: usize = self.picker_snap.len() - 1;
                self.picker = Some(
                    if sel < last {
                        sel + 1
                    } else {
                        last
                    },
                );
            },
            Key::Esc => {
                self.picker = None;
            },
            Key::Enter => {
                assert(lists::pairs(self.picker_snap@)[sel as int] == lists::pair(
                    self.picker_snap@[sel as int],
                ));
                let to = self.picker_snap[sel].0.clone();
                let label = self.picker_snap[sel].1.clone();
                self.to = to;
                self.to_label = label;
                self.picker = None;
            },
            _ => {},
        }
    }

    /// What a key with Ctrl does.
    fn control(&mut self, armed: bool, c: char) -> (r: Action)
        requires
            old(self)@.wf(),
        ensures
            (final(self)@, r@) == control_key(old(self)@, armed, c),
            final(self)@.wf(),
    {
        let blank = self.subject.as_str().is_empty() && self.body.as_str().is_empty();
        if c == 'c' || c == 'q' {
            if !blank && !armed {
                self.quit_armed = true;
                self.status = String::from_str("unsent draft — Ctrl-C again to quit");
                Action::Stay
            } else {
                Action::Quit
            }
        } else if c == 'f' {
            self.full = !self.full;
            Action::Stay
        } else if c == 'r' {
            self.status = String::from_str("syncing…");
            Action::Sync
        } else if c == 't' || (c == '@' && blank) {
            self.open_picker();
            Action::Stay
        } else if c == 's' {
            let subject = text::trim(self.subject.as_str());
            let body = text::trim(self.body.as_str());
            if !subject.as_str().is_empty() || !body.as_str().is_empty() {
                Action::Send(subject, body)
            } else {
                Action::Stay
            }
        } else {
            Action::Stay
        }
    }

    /// What a key does while the picker is closed.
    fn edit(&mut self, armed: bool, key: Key, ctrl: bool) -> (r: Action)
        requires
            old(self)@.wf(),
        ensures
            (final(self)@, r@) == editor_key(old(self)@, armed, key, ctrl),
            final(self)@.wf(),
    {
        match key {
            Key::Char(c) => {
                if ctrl {
                    return self.control(armed, c);
                }
                if c == '@' && self.subject.as_str().is_empty() && self.body.as_str().is_empty() {
                    self.open_picker();
                } else {
                    let mut t = String::new();
                    t.push(c);
                    assert(t@ =~= seq![c]);
                    self.insert(t.as_str());
                }
            },
            Key::Tab | Key::BackTab => {
                self.focus = match self.focus {
                    Focus::Subject => Focus::Body,
                    Focus::Body => Focus::Subject,
                };
            },
            Key::PageUp => {
                self.scroll = self.scroll.saturating_add(8);
            },
            Key::PageDown => {
                self.scroll = self.scroll.saturating_sub(8);
            },
            Key::Up => {
                if ctrl {
                    self.scroll = self.scroll.saturating_add(1);
                } else {
                    match self.focus {
                        Focus::Body => {
                            proof {
                                lemma_rows(self@);
                            }
                            if !self.move_vert(false) {
                                self.focus = Focus::Subject;
                            }
                        },
                        Focus::Subject => {},
                    }
                }
            },
            Key::Down => {
                if ctrl {
                    self.scroll = self.scroll.saturating_sub(1);
                } else {
                    match self.focus {
                        Focus::Subject => {
                            self.focus = Focus::Body;
                        },
                        Focus::Body => {
                            let _moved = self.move_vert(true);
                        },
                    }
                }
            },
            Key::Left => self.move_left(),
            Key::Right => self.move_right(),
            Key::Home => self.home_end(false),
            Key::End => self.home_end(true),
            Key::Delete => self.delete_at(),
            Key::Enter => {
                match self.focus {
                    Focus::Subject => {
                        self.focus = Focus::Body;
                    },
                    Focus::Body => self.insert("\n"),
                }
            },
            Key::Backspace => self.backspace(),
            Key::Esc | Key::Other => {},
        }
        Action::Stay
    }

    /// What a key does, and what is to be done after it.
    pub fn handle_key(&mut self, key: Key, ctrl: bool) -> (r: Action)
        requires
            old(self)@.wf(),
        ensures
            (final(self)@, r@) == pressed(old(self)@, key, ctrl),
            final(self)@.wf(),
    {
        match self.picker {
            Some(sel) => {
                self.pick(sel, key);
                Action::Stay
            },
            None => {
                let armed = self.quit_armed;
                self.status = String::new();
                self.quit_armed = false;
                assert(self@ == (Screen {
                    status: Seq::empty(),
                    quit_armed: false,
                    ..old(self)@
                }));
                self.edit(armed, key, ctrl)
            },
        }
    }

    /// Says how far a message got, and starts a new draft.
    pub fn sent(&mut self, d: Delivery)
        requires
            old(self)@.wf(),
        ensures
            final(self)@ == after_send(old(self)@, d),
            final(self)@.wf(),
    {
        self.status = match d {
            Delivery::Pushed => String::from_str("sent ✓"),
            Delivery::Committed => String::from_str("sent (will sync)"),
            Delivery::OnDiskOnly => String::from_str("on disk only — NOT committed, run sync"),
        };
        self.subject = String::new();
        self.body = String::new();
        self.scur = 0;
        self.cur = 0;
        self.body_scroll = 0;
        self.scroll = 0;
    }

    /// Says that a message could not be sent; the draft stays.
    pub fn send_failed(&mut self, why: &str)
        requires
            old(self)@.wf(),
        ensures
            final(self)@ == (Screen { status: "send failed: "@ + why@, ..old(self)@ }),
            final(self)@.wf(),
    {
        let mut s = String::from_str("send failed: ");
        s.append(why);
        self.status = s;
    }
}

proof fn lemma_placed_pair(v: Seq<(Seq<char>, Seq<char>)>, x: (Seq<char>, Seq<char>), k: int)
    requires
        0 <= k <= v.len(),
        k == 0 || !picked_before(x, v[k - 1]),
        forall|i: int| k <= i < v.len() ==> picked_before(x, v[i]),
    ensures
        placed(v, x) == v.take(k).push(x) + v.skip(k),
    decreases v.len(),
{
    if k == v.len() {
        assert(v.take(k).push(x) + v.skip(k) =~= v.push(x));
    } else {
        let w = v.drop_last();
        lemma_placed_pair(w, x, k);
        assert(w.take(k) =~= v.take(k));
        assert(w.skip(k).push(v.last()) =~= v.skip(k));
        assert(placed(v, x) =~= v.take(k).push(x) + v.skip(k));
    }
}

/// Puts a pair into a list in its place.
fn place_pair(v: &mut Vec<(String, String)>, p: (String, String))
    ensures
        lists::pairs(final(v)@) == placed(lists::pairs(old(v)@), lists::pair(p)),
{
    let ghost before = lists::pairs(v@);
    let mut k: usize = v.len();
    while k > 0 && (text::is_before(p.1.as_str(), v[k - 1].1.as_str()) || (text::same(
        p.1.as_str(),
        v[k - 1].1.as_str(),
    ) && text::is_before(p.0.as_str(), v[k - 1].0.as_str())))
        invariant
            k <= v@.len(),
            *v == *old(v),
            before == lists::pairs(v@),
            forall|j: int| k <= j < v@.len() ==> picked_before(lists::pair(p), #[trigger] before[j]),
        decreases k,
    {
        k = k - 1;
        assert(before[k as int] == lists::pair(v@[k as int]));
    }
    proof {
        if k > 0 {
            assert(before[k - 1] == lists::pair(v@[k - 1]));
        }
        lemma_placed_pair(before, lists::pair(p), k as int);
    }
    v.insert(k, p);
    assert(lists::pairs(v@) =~= before.take(k as int).push(lists::pair(p)) + before.skip(k as int));
}

// ---- laws -----------------------------------------------------------------

proof fn lemma_edits_keep_cursors(s: Screen, t: Seq<char>)
    requires
        s.wf(),
    ensures
        written(s, t).wf(),
        backspaced(s).wf(),
        deleted(s).wf(),
        moved_left(s).wf(),
        moved_right(s).wf(),
{
    let a = on_one_line(t);
    let b = text::replaced(t, '\r', ""@);
    assert(editor::inserted(s.subject, s.scur, a).len() == s.subject.len() + a.len());
    assert(editor::inserted(s.body, s.cur, b).len() == s.body.len() + b.len());
}

proof fn lemma_moves_keep_cursors(s: Screen)
    requires
        s.wf(),
    ensures
        moved_vertically(s, true).wf(),
        moved_vertically(s, false).wf(),
        moved_to_edge(s, true).wf(),
        moved_to_edge(s, false).wf(),
{
    lemma_rows(s);
    let r = cursor_row(s);
    let row = body_rows(s)[r];
    assert(0 <= row.start);
    if r + 1 < body_rows(s).len() {
        assert(0 <= body_rows(s)[r + 1].start);
    }
    if r > 0 {
        assert(0 <= body_rows(s)[r - 1].start);
    }
}

/// No key leaves a cursor outside its text, or the mark of the picker outside
/// its rows.
pub proof fn keys_keep_cursors_in_place(s: Screen, key: Key, ctrl: bool)
    requires
        s.wf(),
    ensures
        pressed(s, key, ctrl).0.wf(),
{
    let t = Screen { status: Seq::empty(), quit_armed: false, ..s };
    lemma_edits_keep_cursors(t, "\n"@);
    lemma_moves_keep_cursors(t);
    match key {
        Key::Char(c) => {
            lemma_edits_keep_cursors(t, seq![c]);
            assert(picking(t).wf());
        },
        _ => {},
    }
}

/// A draft is not lost to one request to quit: it takes two in a row.
pub proof fn quitting_spares_a_draft(s: Screen, key: Key, ctrl: bool)
    requires
        !s.is_blank(),
        !s.quit_armed,
    ensures
        !(pressed(s, key, ctrl).1 is Quit),
{
}

/// The second of two requests to quit in a row is granted, and the first of them
/// leaves the draft as it is.
pub proof fn quitting_twice_quits(s: Screen, first: char, second: char)
    requires
        s.picker is None,
        !s.is_blank(),
        !s.quit_armed,
        first == 'c' || first == 'q',
        second == 'c' || second == 'q',
    ensures
        pressed(s, Key::Char(first), true).0.subject == s.subject,
        pressed(s, Key::Char(first), true).0.body == s.body,
        pressed(pressed(s, Key::Char(first), true).0, Key::Char(second), true).1 is Quit,
{
}

/// Any other key takes a request to quit back.
pub proof fn other_keys_disarm(s: Screen, key: Key, ctrl: bool)
    requires
        s.picker is None,
        !(ctrl && (key == Key::Char('c') || key == Key::Char('q'))),
    ensures
        !pressed(s, key, ctrl).0.quit_armed,
{
}

/// The picker leaves the draft alone, and what it picks is what is marked.
pub proof fn picker_picks_what_is_marked(s: Screen, key: Key, ctrl: bool)
    requires
        s.wf(),
        s.picker is Some,
    ensures
        pressed(s, key, ctrl).0.subject == s.subject,
        pressed(s, key, ctrl).0.body == s.body,
        pressed(s, key, ctrl).0.picker_snap == s.picker_snap,
        key == Key::Enter ==> pressed(s, key, ctrl).0.to == s.picker_snap[s.picker->0 as int].0
            && pressed(s, key, ctrl).0.to_label == s.picker_snap[s.picker->0 as int].1,
        key != Key::Enter ==> pressed(s, key, ctrl).0.to == s.to,
{
}

/// Sending is explicit: one key sends, with Ctrl, and no other does.
pub proof fn one_key_sends(s: Screen, key: Key, ctrl: bool)
    requires
        pressed(s, key, ctrl).1 is Send,
    ensures
        ctrl && key == Key::Char('s'),
{
}

/// Enter in the body writes a new line where the cursor stands, and never sends.
pub proof fn enter_writes_a_line(s: Screen, ctrl: bool)
    requires
        s.wf(),
        s.picker is None,
        s.focus == Focus::Body,
    ensures
        pressed(s, Key::Enter, ctrl).1 is Stay,
        pressed(s, Key::Enter, ctrl).0.body == editor::inserted(s.body, s.cur, seq!['\n']),
        pressed(s, Key::Enter, ctrl).0.cur == s.cur + 1,
{
    reveal_strlit("\n");
    assert("\n"@ =~= seq!['\n']);
    lemma_replaced_one('\n', '\r', ""@);
}

/// What becomes of a single character where another is replaced.
proof fn lemma_replaced_one(c: char, out: char, with: Seq<char>)
    ensures
        c != out ==> text::replaced(seq![c], out, with) == seq![c],
        c == out ==> text::replaced(seq![c], out, with) == with,
{
    assert(seq![c].drop_last() =~= Seq::empty());
    assert(text::replaced(Seq::empty(), out, with) =~= Seq::empty());
    if c != out {
        assert(text::replaced(seq![c], out, with) =~= seq![c]);
    } else {
        assert(text::replaced(seq![c], out, with) =~= with);
    }
}

/// A message is only ever sent with something in it, and sending it is what
/// clears the draft.
pub proof fn nothing_empty_is_sent(s: Screen, key: Key, ctrl: bool)
    requires
        pressed(s, key, ctrl).1 is Send,
    ensures
        ({
            let d = pressed(s, key, ctrl).1;
            d->Send_0.len() > 0 || d->Send_1.len() > 0
        }),
        pressed(s, key, ctrl).0.subject == s.subject,
        pressed(s, key, ctrl).0.body == s.body,
{
}

/// A typed character can be taken back: the monitor is as before.
pub proof fn backspace_undoes_a_character(s: Screen, c: char)
    requires
        s.wf(),
        s.focus == Focus::Body ==> c != '\r',
    ensures
        backspaced(written(s, seq![c])) == s,
{
    match s.focus {
        Focus::Body => {
            lemma_replaced_one(c, '\r', ""@);
            editor::backspace_undoes_insert(s.body, s.cur, c);
        },
        Focus::Subject => {
            reveal_strlit(" ");
            assert(" "@ =~= seq![' ']);
            lemma_replaced_one(c, '\n', " "@);
            lemma_replaced_one(c, '\r', " "@);
            lemma_replaced_one(' ', '\r', " "@);
            let t = on_one_line(seq![c]);
            assert(t.len() == 1);
            assert(t =~= seq![t[0]]);
            editor::backspace_undoes_insert(s.subject, s.scur, t[0]);
        },
    }
}

/// The key that sends hands over what is written, without the blanks around it,
/// as soon as there is anything; with nothing written it does nothing.
pub proof fn what_is_written_is_sent(s: Screen)
    requires
        s.picker is None,
    ensures
        ({
            let subject = text::trimmed(s.subject);
            let body = text::trimmed(s.body);
            pressed(s, Key::Char('s'), true).1 == if subject.len() > 0 || body.len() > 0 {
                Deed::Send(subject, body)
            } else {
                Deed::Stay
            }
        }),
{
}

/// A character that is typed stands at the cursor of the field it is typed in,
/// and the cursor behind it; the other field stays as it is. An `@` opens the
/// choice of recipients instead while nothing is written.
pub proof fn typing_writes_at_the_cursor(s: Screen, c: char)
    requires
        s.wf(),
        s.picker is None,
        c != '\n' && c != '\r',
        c != '@' || s.subject.len() > 0 || s.body.len() > 0,
    ensures
        ({
            let r = pressed(s, Key::Char(c), false);
            &&& r.1 is Stay
            &&& s.focus == Focus::Body ==> r.0.body == s.body.take(s.cur) + seq![c] + s.body.skip(
                s.cur,
            ) && r.0.cur == s.cur + 1 && r.0.subject == s.subject && r.0.scur == s.scur
            &&& s.focus == Focus::Subject ==> r.0.subject == s.subject.take(s.scur) + seq![c]
                + s.subject.skip(s.scur) && r.0.scur == s.scur + 1 && r.0.body == s.body && r.0.cur
                == s.cur
            &&& r.0.picker is None && r.0.to == s.to && r.0.focus == s.focus
        }),
{
    lemma_replaced_one(c, '\n', " "@);
    lemma_replaced_one(c, '\r', " "@);
    lemma_replaced_one(c, '\r', ""@);
}

/// The choice of recipients opens at its first entry, which is everyone: by an
/// `@` while nothing is written, and by its own key at any time.
pub proof fn choice_opens_at_everyone(s: Screen)
    requires
        s.picker is None,
    ensures
        ({
            let r = pressed(s, Key::Char('t'), true).0;
            r.picker == Some(0usize) && r.picker_snap.len() > 0 && r.picker_snap[0] == (
                "all"@,
                "everyone"@,
            ) && r.subject == s.subject && r.body == s.body
        }),
        s.subject.len() == 0 && s.body.len() == 0 ==> pressed(s, Key::Char('@'), false).0
            == pressed(s, Key::Char('t'), true).0,
{
}

proof fn lemma_placed_has(
    v: Seq<(Seq<char>, Seq<char>)>,
    x: (Seq<char>, Seq<char>),
    y: (Seq<char>, Seq<char>),
)
    ensures
        placed(v, x).contains(y) <==> v.contains(y) || y == x,
        placed(v, x).len() == v.len() + 1,
    decreases v.len(),
{
    let r = placed(v, x);
    if v.len() == 0 || !picked_before(x, v.last()) {
        if v.contains(y) {
            let k = choose|k: int| 0 <= k < v.len() && v[k] == y;
            assert(r[k] == y);
        }
        if y == x {
            assert(r[v.len() as int] == y);
        }
        if r.contains(y) {
            let k = choose|k: int| 0 <= k < r.len() && r[k] == y;
            if k < v.len() {
                assert(v[k] == y);
            }
        }
    } else {
        let w = v.drop_last();
        let p = placed(w, x);
        lemma_placed_has(w, x, y);
        if v.contains(y) {
            let k = choose|k: int| 0 <= k < v.len() && v[k] == y;
            if k < w.len() {
                assert(w[k] == y);
            }
        }
        if w.contains(y) {
            let k = choose|k: int| 0 <= k < w.len() && w[k] == y;
            assert(v[k] == y);
        }
        if p.contains(y) {
            let k = choose|k: int| 0 <= k < p.len() && p[k] == y;
            assert(r[k] == y);
        }
        if y == v.last() {
            assert(r[r.len() - 1] == y);
            assert(v[v.len() - 1] == y);
        }
        if r.contains(y) {
            let k = choose|k: int| 0 <= k < r.len() && r[k] == y;
            if k < p.len() {
                assert(p[k] == y);
            }
        }
    }
}

proof fn lemma_candidates(
    ids: Seq<Seq<char>>,
    names: Seq<(Seq<char>, Seq<char>)>,
    y: (Seq<char>, Seq<char>),
)
    ensures
        candidates(ids, names).contains(y) <==> ids.contains(y.0) && y.1 == names::called(
            names,
            y.0,
        ),
        candidates(ids, names).len() == ids.len(),
    decreases ids.len(),
{
    if ids.len() > 0 {
        let w = ids.drop_last();
        lemma_candidates(w, names, y);
        lemma_placed_has(
            candidates(w, names),
            (ids.last(), names::called(names, ids.last())),
            y,
        );
        if w.contains(y.0) {
            let k = choose|k: int| 0 <= k < w.len() && w[k] == y.0;
            assert(ids[k] == y.0);
        }
        if ids.contains(y.0) {
            let k = choose|k: int| 0 <= k < ids.len() && ids[k] == y.0;
            if k < w.len() {
                assert(w[k] == y.0);
            }
        }
        if y.0 == ids.last() {
            assert(ids[ids.len() - 1] == y.0);
        }
    }
}

/// The recipients to choose from are everyone, and each node that is present, by
/// its identifier and under its name.
pub proof fn everyone_present_can_be_chosen(
    present: Seq<Seq<char>>,
    names: Seq<(Seq<char>, Seq<char>)>,
    id: Seq<char>,
    name: Seq<char>,
)
    ensures
        targets(present, names)[0] == ("all"@, "everyone"@),
        targets(present, names).skip(1).contains((id, name)) <==> present.contains(id) && name
            == names::called(names, id),
{
    let ids = lists::sorted_set(present);
    lists::sorted_set_is_a_set(present);
    lemma_candidates(ids, names, (id, name));
    assert(targets(present, names).skip(1) =~= candidates(ids, names));
    assert(ids.contains(id) <==> present.contains(id));
}

/// The arrows move the mark in the choice of recipients by one, and not beyond
/// its ends; escape leaves without choosing.
pub proof fn arrows_move_the_mark(s: Screen, ctrl: bool)
    requires
        s.wf(),
        s.picker is Some,
    ensures
        pressed(s, Key::Down, ctrl).0.picker == Some(
            if s.picker->0 + 1 < s.picker_snap.len() {
                (s.picker->0 + 1) as usize
            } else {
                s.picker->0
            },
        ),
        pressed(s, Key::Up, ctrl).0.picker == Some(
            if s.picker->0 > 0 {
                (s.picker->0 - 1) as usize
            } else {
                0
            },
        ),
        pressed(s, Key::Esc, ctrl).0.picker is None,
        pressed(s, Key::Enter, ctrl).0.picker is None,
{
}

/// Moving right and then left comes back to where it began, and so does moving
/// left and then right.
pub proof fn arrows_undo_each_other(s: Screen)
    requires
        s.wf(),
    ensures
        s.focus == Focus::Body && s.cur < s.body.len() ==> moved_right(s).cur == s.cur + 1
            && moved_left(moved_right(s)) == s,
        s.focus == Focus::Body && s.cur > 0 ==> moved_left(s).cur == s.cur - 1 && moved_right(
            moved_left(s),
        ) == s,
        s.focus == Focus::Subject && s.scur < s.subject.len() ==> moved_right(s).scur == s.scur + 1
            && moved_left(moved_right(s)) == s,
        s.focus == Focus::Subject && s.scur > 0 ==> moved_left(s).scur == s.scur - 1
            && moved_right(moved_left(s)) == s,
{
}

/// Deleting at the cursor takes out the character that stands there: what was
/// just written is gone again once the cursor is back before it.
pub proof fn delete_undoes_a_character(s: Screen, c: char)
    requires
        s.wf(),
        c != '\n' && c != '\r',
    ensures
        deleted(moved_left(written(s, seq![c]))) == s,
        s.focus == Focus::Body && s.cur == s.body.len() ==> deleted(s) == s,
        s.focus == Focus::Subject && s.scur == s.subject.len() ==> deleted(s) == s,
{
    lemma_replaced_one(c, '\n', " "@);
    lemma_replaced_one(c, '\r', " "@);
    lemma_replaced_one(c, '\r', ""@);
    editor::backspace_undoes_insert(s.body, s.cur, c);
    editor::backspace_undoes_insert(s.subject, s.scur, c);
}

/// Moving up or down goes to the row above or below, to the same place in it or
/// to its end where it is shorter; beyond the first and the last row there is
/// nothing to move to.
pub proof fn rows_are_moved_through(s: Screen, down: bool)
    requires
        s.wf(),
    ensures
        ({
            let rows = body_rows(s);
            let r = cursor_row(s);
            let to = if down {
                r + 1
            } else {
                r - 1
            };
            let column = s.cur - rows[r].start;
            let m = moved_vertically(s, down);
            &&& 0 <= to < rows.len() && column <= rows[to].shown.len() ==> m.cur == rows[to].start
                + column
            &&& 0 <= to < rows.len() && column > rows[to].shown.len() ==> m.cur == rows[to].start
                + rows[to].shown.len()
            &&& !(0 <= to < rows.len()) ==> m == s
            &&& m.body == s.body && m.subject == s.subject && m.scur == s.scur
        }),
{
    editor::cursor_stands_in_its_row(s.body, s.body_w as nat, s.cur);
}

/// Home and End go to the ends of the row that the cursor is in, or of the
/// subject.
pub proof fn home_and_end_go_to_the_edges(s: Screen)
    requires
        s.wf(),
    ensures
        ({
            let row = body_rows(s)[cursor_row(s)];
            &&& s.focus == Focus::Body ==> moved_to_edge(s, false).cur == row.start
            &&& s.focus == Focus::Body ==> moved_to_edge(s, true).cur == row.start
                + row.shown.len()
            &&& s.focus == Focus::Subject ==> moved_to_edge(s, false).scur == 0
            &&& s.focus == Focus::Subject ==> moved_to_edge(s, true).scur == s.subject.len()
            &&& moved_to_edge(s, true).body == s.body && moved_to_edge(s, true).subject
                == s.subject
        }),
{
}

/// Pages scroll the conversation by eight lines and the arrows with the control
/// key by one, not beyond its end; no other key scrolls it.
pub proof fn keys_scroll_the_conversation(s: Screen, key: Key, ctrl: bool)
    requires
        s.picker is None,
        s.scroll < usize::MAX - 8,
    ensures
        pressed(s, Key::PageUp, ctrl).0.scroll == s.scroll + 8,
        pressed(s, Key::PageDown, ctrl).0.scroll == if s.scroll >= 8 {
            s.scroll - 8
        } else {
            0
        },
        pressed(s, Key::Up, true).0.scroll == s.scroll + 1,
        pressed(s, Key::Down, true).0.scroll == if s.scroll >= 1 {
            s.scroll - 1
        } else {
            0
        },
        key != Key::PageUp && key != Key::PageDown && !(ctrl && (key == Key::Up || key
            == Key::Down)) ==> pressed(s, key, ctrl).0.scroll == s.scroll,
{
}

/// What the other keys with the control key do: show messages in full or not, and
/// fetch what is new; neither touches what is written.
pub proof fn control_keys_do_their_one_thing(s: Screen)
    requires
        s.picker is None,
    ensures
        pressed(s, Key::Char('f'), true).0.full == !s.full,
        pressed(s, Key::Char('f'), true).1 is Stay,
        pressed(s, Key::Char('r'), true).1 is Sync,
        pressed(s, Key::Char('f'), true).0.body == s.body,
        pressed(s, Key::Char('r'), true).0.body == s.body,
        pressed(s, Key::Char('f'), true).0.subject == s.subject,
        pressed(s, Key::Char('r'), true).0.subject == s.subject,
        s.is_blank() ==> pressed(s, Key::Char('c'), true).1 is Quit && pressed(
            s,
            Key::Char('q'),
            true,
        ).1 is Quit,
{
}

/// Tab goes to the other field and back; down from the subject goes to the body,
/// and up from the first row of the body to the subject.
pub proof fn fields_are_moved_between(s: Screen, ctrl: bool)
    requires
        s.picker is None,
    ensures
        pressed(s, Key::Tab, ctrl).0.focus != s.focus,
        pressed(s, Key::BackTab, ctrl).0.focus != s.focus,
        s.focus == Focus::Subject ==> pressed(s, Key::Down, false).0.focus == Focus::Body,
        s.focus == Focus::Subject ==> pressed(s, Key::Enter, ctrl).0.focus == Focus::Body
            && pressed(s, Key::Enter, ctrl).0.subject == s.subject,
        s.focus == Focus::Body && cursor_row(s) == 0 ==> pressed(s, Key::Up, false).0.focus
            == Focus::Subject,
        s.focus == Focus::Body && cursor_row(s) > 0 ==> pressed(s, Key::Up, false).0.focus
            == Focus::Body,
{
}

/// What was sent is cleared away and the end of the conversation shown, to
/// whomever it went; what is said of it is no more than how far it got.
pub proof fn sending_clears_the_draft(s: Screen, d: Delivery)
    ensures
        ({
            let r = after_send(s, d);
            &&& r.is_blank() && r.scur == 0 && r.cur == 0 && r.scroll == 0 && r.body_scroll == 0
            &&& r.to == s.to && r.to_label == s.to_label && r.focus == s.focus && r.msgs == s.msgs
            &&& r.status == "sent ✓"@ ==> d == Delivery::Pushed
            &&& d == Delivery::Pushed ==> r.status == "sent ✓"@
            &&& d == Delivery::OnDiskOnly ==> text::has_text(r.status, "NOT committed"@)
        }),
{
    reveal_strlit("sent ✓");
    reveal_strlit("sent (will sync)");
    reveal_strlit("on disk only — NOT committed, run sync");
    reveal_strlit("NOT committed");
    assert("sent ✓"@.len() == 6);
    assert("sent (will sync)"@.len() == 16);
    let t = "on disk only — NOT committed, run sync"@;
    assert(t.len() > 6);
    assert(t.subrange(15, 28) =~= "NOT committed"@);
    assert(text::is_at(t, 15, "NOT committed"@));
}

/// Refreshing shows the messages of the room that was asked for, or of those that
/// the node takes part in, and names everyone anew; it leaves alone what is
/// written, to whom it goes, and what is shown of it.
pub proof fn refreshing_keeps_the_draft(
    s: Screen,
    found: Seq<Letter>,
    present: Seq<Seq<char>>,
    m: Letter,
)
    ensures
        ({
            let r = refreshed(s, found, present);
            &&& r.msgs.contains(m) <==> message::in_order(message::arrivals(found)).contains(m) && (
            match s.room {
                Some(room) => m.room == room,
                None => s.node.rooms.contains(m.room),
            })
            &&& r.present == present
            &&& r.subject == s.subject && r.scur == s.scur && r.body == s.body && r.cur == s.cur
            &&& r.to == s.to && r.post_room == s.post_room && r.focus == s.focus && r.scroll
                == s.scroll && r.full == s.full && r.picker == s.picker && r.picker_snap
                == s.picker_snap
            &&& s.to == "all"@ ==> r.to_label == "everyone"@
        }),
{
    let v = message::in_order(message::arrivals(found));
    let rooms = match s.room {
        Some(r) => seq![r],
        None => s.node.rooms,
    };
    message::rooms_show_their_messages(v, rooms, m);
    if s.room is Some {
        let one = seq![s.room->0];
        assert(one[0] == s.room->0);
        assert(one.contains(m.room) <==> m.room == s.room->0) by {
            if one.contains(m.room) {
                let k = choose|k: int| 0 <= k < one.len() && one[k] == m.room;
            }
        }
    }
}

/// A monitor opens on the room that was asked for, or on the first that the node
/// takes part in, with nothing written, to everyone.
pub proof fn monitor_opens_to_everyone(n: node::Node, room: Option<Seq<char>>, full: bool)
    ensures
        ({
            let s = opened(n, room, full);
            &&& s.wf() && s.is_blank() && s.to == "all"@ && s.focus == Focus::Body && s.full == full
            &&& s.picker is None && !s.quit_armed
            &&& room matches Some(r) ==> s.post_room == r && s.room_label == r
            &&& room is None && n.rooms.len() > 0 ==> s.post_room == n.rooms[0]
            &&& room is None && n.rooms.len() == 0 ==> s.post_room == "main"@
        }),
{
}

} // verus!
