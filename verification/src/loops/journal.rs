//! The crash guard of a loop: a journal of what its fires did, and what the
//! next fire, a checkpoint or the watchdog makes of the last entry.
//!
//! A fire writes `start` when it begins and `done` when it ends. A `start`
//! without its `done` is a fire that died, and it stops the loop until someone
//! re-arms it.

use vstd::prelude::*;

use crate::clock;
use crate::clock::Moment;
use crate::json;
use crate::lists;
use crate::loops::files;
use crate::package;
use crate::paths;
use crate::text;

verus! {

// ---- the journal ----------------------------------------------------------

/// The last entry of a journal, as far as it was read.
#[derive(Debug)]
pub struct LoopEvent {
    pub event: String,
    pub iter: u64,
    pub at: Option<String>,
}

/// An entry to add to a journal. A checkpoint has a note, which may be missing;
/// a halt has a reason.
pub struct Entry {
    pub event: String,
    pub at: String,
    pub iter: u64,
    pub note: Option<Option<String>>,
    pub reason: Option<String>,
}

/// What an entry says.
pub struct Record {
    pub event: Seq<char>,
    pub at: Seq<char>,
    pub iter: u64,
    pub note: Option<Option<Seq<char>>>,
    pub reason: Option<Seq<char>>,
}

impl View for Entry {
    type V = Record;

    open spec fn view(&self) -> Record {
        Record {
            event: self.event@,
            at: self.at@,
            iter: self.iter,
            note: match self.note {
                Some(n) => Some(text::opt_string(n)),
                None => None,
            },
            reason: text::opt_string(self.reason),
        }
    }
}

/// What the entries of a list say.
pub open spec fn records(v: Seq<Entry>) -> Seq<Record> {
    v.map_values(|e: Entry| e@)
}

/// An entry that only marks a point of an iteration.
pub open spec fn mark(event: Seq<char>, at: Seq<char>, iter: u64) -> Record {
    Record { event, at, iter, note: None, reason: None }
}

/// An entry that stops the loop.
pub open spec fn halt_record(at: Seq<char>, iter: u64, reason: Seq<char>) -> Record {
    Record { event: "halt"@, at, iter, note: None, reason: Some(reason) }
}

/// The line of a journal that holds an entry.
pub open spec fn line_of(r: Record) -> Seq<char> {
    let head = "{\"at\":"@ + json::quoted(r.at) + ",\"event\":"@ + json::quoted(r.event)
        + ",\"iter\":"@ + text::decimal(r.iter as nat);
    let noted = match r.note {
        Some(n) => head + ",\"note\":"@ + json::quoted_or_null(n),
        None => head,
    };
    let reasoned = match r.reason {
        Some(s) => noted + ",\"reason\":"@ + json::quoted(s),
        None => noted,
    };
    reasoned + "}"@
}

/// The line of a journal that holds an entry.
pub fn entry_line(e: &Entry) -> (r: String)
    ensures
        r@ == line_of(e@),
{
    let mut r = String::from_str("{\"at\":");
    r.append(json::quote(e.at.as_str()).as_str());
    r.append(",\"event\":");
    r.append(json::quote(e.event.as_str()).as_str());
    r.append(",\"iter\":");
    r.append(text::show_u64(e.iter).as_str());
    match &e.note {
        Some(n) => {
            r.append(",\"note\":");
            match n {
                Some(s) => r.append(json::quote(s.as_str()).as_str()),
                None => r.append("null"),
            }
        },
        None => {},
    }
    match &e.reason {
        Some(s) => {
            r.append(",\"reason\":");
            r.append(json::quote(s.as_str()).as_str());
        },
        None => {},
    }
    r.append("}");
    r
}

/// The position of the last line that is not blank; -1 where all are.
pub open spec fn last_filled(lines: Seq<Seq<char>>) -> int
    decreases lines.len(),
{
    if lines.len() == 0 {
        -1
    } else if text::trimmed(lines.last()).len() > 0 {
        lines.len() - 1
    } else {
        last_filled(lines.drop_last())
    }
}

/// The line of a journal that holds its last entry.
pub open spec fn last_line(raw: Seq<char>) -> Option<Seq<char>> {
    let lines = text::lines_of(raw);
    let i = last_filled(lines);
    if i < 0 {
        None
    } else {
        Some(lines[i])
    }
}

/// The line of a journal that holds its last entry: the last one that is not
/// blank.
pub fn last_event_line(raw: &str) -> (r: Option<String>)
    ensures
        text::opt_string(r) == last_line(raw@),
{
    let lines = text::lines(raw);
    let ghost all = text::lines_of(raw@);
    let mut n: usize = lines.len();
    assert(all.take(n as int) =~= all);
    while n > 0
        invariant
            n <= lines@.len(),
            text::texts(lines@) == all,
            all == text::lines_of(raw@),
            last_filled(all) == last_filled(all.take(n as int)),
        decreases n,
    {
        assert(all.take(n as int).last() == all[n - 1]);
        assert(all[n - 1] == lines@[n - 1]@);
        assert(all.take(n as int).drop_last() =~= all.take(n - 1));
        if !text::is_blank(lines[n - 1].as_str()) {
            return Some(lines[n - 1].clone());
        }
        n = n - 1;
    }
    None
}

// ---- the state of a loop --------------------------------------------------

/// Where a loop stands.
pub struct Standing {
    /// The last entry of its journal: what happened, and in which iteration.
    pub last: Option<(Seq<char>, u64)>,
    /// Whether its marker keeps it stopped.
    pub disabled: bool,
}

/// The last entry of a journal, as a pair.
pub open spec fn position(last: Option<&LoopEvent>) -> Option<(Seq<char>, u64)> {
    match last {
        Some(e) => Some((e.event@, e.iter)),
        None => None,
    }
}

/// Where a loop stands once entries were added to its journal.
pub open spec fn recorded(st: Standing, entries: Seq<Record>) -> Standing {
    if entries.len() == 0 {
        st
    } else {
        Standing { last: Some((entries.last().event, entries.last().iter)), ..st }
    }
}

/// Whether the last entry is of a fire that died, or of the halt after it.
pub open spec fn interrupted(last: Option<(Seq<char>, u64)>) -> bool {
    match last {
        Some(e) => e.0 == "start"@ || e.0 == "halt"@,
        None => false,
    }
}

/// The iteration of the last entry.
pub open spec fn last_iter(last: Option<(Seq<char>, u64)>) -> u64 {
    match last {
        Some(e) => e.1,
        None => 0,
    }
}

/// What a fire is to do.
#[derive(Clone, Copy, Debug, PartialEq, Eq, Structural)]
pub struct GuardOutcome {
    pub halt: bool,
    pub iter: u64,
    /// Whether the fire clears a crash that came before it.
    pub log_reset: bool,
}

/// What a fire is to do: halt in the iteration that died, or go on with the
/// next one.
pub open spec fn decision(last: Option<(Seq<char>, u64)>, reset: bool) -> GuardOutcome {
    if interrupted(last) && !reset {
        GuardOutcome { halt: true, iter: last_iter(last), log_reset: false }
    } else {
        GuardOutcome {
            halt: false,
            iter: (last_iter(last) + 1) as u64,
            log_reset: interrupted(last),
        }
    }
}

/// Whether a fire can be numbered.
pub open spec fn numberable(last: Option<(Seq<char>, u64)>, reset: bool) -> bool {
    (interrupted(last) && !reset) || last_iter(last) < u64::MAX
}

/// What a fire is to do, given the last entry of the journal and whether the
/// loop is being re-armed.
pub fn guard_decision(last: Option<&LoopEvent>, reset: bool) -> (r: GuardOutcome)
    requires
        numberable(position(last), reset),
    ensures
        r == decision(position(last), reset),
{
    match last {
        None => GuardOutcome { halt: false, iter: 1, log_reset: false },
        Some(e) => {
            let broken = text::same(e.event.as_str(), "start") || text::same(
                e.event.as_str(),
                "halt",
            );
            if broken && !reset {
                GuardOutcome { halt: true, iter: e.iter, log_reset: false }
            } else {
                GuardOutcome { halt: false, iter: e.iter + 1, log_reset: broken }
            }
        },
    }
}

// ---- a fire ---------------------------------------------------------------

pub const DISABLED_REASON: &'static str = "loop DISABLED by the watchdog (a prior fire was blocked/crashed) — re-arm with --reset";

pub const HALTED_REASON: &'static str = "loop is HALTED from a prior crash and was not re-armed (pass --reset to resume)";

pub const CRASHED_REASON: &'static str = "previous iteration started but never completed — likely an API error / crash mid-fire";

/// What a command does to a loop: the entries it adds, what the recovery
/// pointer then says, and the line it prints.
pub struct Step {
    pub stopped: bool,
    pub entries: Seq<Record>,
    pub status: Seq<char>,
    pub iter: u64,
    pub detail: Seq<char>,
    pub report: Seq<char>,
}

/// What a command does to a loop.
pub struct Plan {
    pub stopped: bool,
    pub entries: Vec<Entry>,
    pub status: String,
    pub iter: u64,
    pub detail: String,
    pub report: String,
}

impl View for Plan {
    type V = Step;

    open spec fn view(&self) -> Step {
        Step {
            stopped: self.stopped,
            entries: records(self.entries@),
            status: self.status@,
            iter: self.iter,
            detail: self.detail@,
            report: self.report@,
        }
    }
}

/// Where a loop stands once re-arming has taken its marker away.
pub open spec fn rearmed(st: Standing, reset: bool) -> Standing {
    Standing { disabled: st.disabled && !reset, ..st }
}

/// Why a fire halts that finds a crash.
pub open spec fn halt_reason(last: Option<(Seq<char>, u64)>) -> Seq<char> {
    if last is Some && (last->0).0 == "halt"@ {
        HALTED_REASON@
    } else {
        CRASHED_REASON@
    }
}

/// What a fire does that finds its loop disabled.
pub open spec fn disabled_step(last: Option<(Seq<char>, u64)>, label: Seq<char>) -> Step {
    Step {
        stopped: true,
        entries: Seq::empty(),
        status: "HALTED"@,
        iter: last_iter(last),
        detail: DISABLED_REASON@,
        report: "{\"action\":\"halt\",\"label\":"@ + json::quoted(label) + ",\"reason\":"@
            + json::quoted(DISABLED_REASON@) + "}"@,
    }
}

/// What a fire does that halts: the first one after a crash puts it on record.
pub open spec fn halt_step(
    last: Option<(Seq<char>, u64)>,
    label: Seq<char>,
    now: Seq<char>,
) -> Step {
    let iter = last_iter(last);
    let reason = halt_reason(last);
    Step {
        stopped: true,
        entries: if last is Some && (last->0).0 == "start"@ {
            seq![halt_record(now, iter, reason)]
        } else {
            Seq::empty()
        },
        status: "HALTED"@,
        iter,
        detail: reason,
        report: "{\"action\":\"halt\",\"iter\":"@ + text::decimal(iter as nat) + ",\"label\":"@
            + json::quoted(label) + ",\"reason\":"@ + json::quoted(reason) + "}"@,
    }
}

/// What a fire does that goes on.
pub open spec fn continue_step(
    last: Option<(Seq<char>, u64)>,
    label: Seq<char>,
    now: Seq<char>,
) -> Step {
    let iter = (last_iter(last) + 1) as u64;
    Step {
        stopped: false,
        entries: if interrupted(last) {
            seq![mark("reset"@, now, last_iter(last)), mark("start"@, now, iter)]
        } else {
            seq![mark("start"@, now, iter)]
        },
        status: "running"@,
        iter,
        detail: "iteration "@ + text::decimal(iter as nat) + " started"@,
        report: "{\"action\":\"continue\",\"iter\":"@ + text::decimal(iter as nat) + ",\"label\":"@
            + json::quoted(label) + "}"@,
    }
}

/// What a fire does.
pub open spec fn guard_step(st: Standing, reset: bool, label: Seq<char>, now: Seq<char>) -> Step {
    if st.disabled {
        disabled_step(st.last, label)
    } else if interrupted(st.last) && !reset {
        halt_step(st.last, label, now)
    } else {
        continue_step(st.last, label, now)
    }
}

/// An entry that only marks a point of an iteration.
fn new_mark(event: &str, at: &str, iter: u64) -> (r: Entry)
    ensures
        r@ == mark(event@, at@, iter),
{
    Entry {
        event: String::from_str(event),
        at: String::from_str(at),
        iter,
        note: None,
        reason: None,
    }
}

/// An entry that stops the loop.
pub fn new_halt(at: &str, iter: u64, reason: &str) -> (r: Entry)
    ensures
        r@ == halt_record(at@, iter, reason@),
{
    Entry {
        event: String::from_str("halt"),
        at: String::from_str(at),
        iter,
        note: None,
        reason: Some(String::from_str(reason)),
    }
}

/// Whether re-arming takes the marker away that keeps a loop stopped.
pub fn clears_marker(reset: bool, disabled: bool) -> (r: bool)
    ensures
        r == (disabled && !rearmed(Standing { last: None, disabled }, reset).disabled),
{
    reset && disabled
}

/// Whether a fire can be numbered, where it comes to that.
pub fn can_fire(last: Option<&LoopEvent>, disabled: bool, reset: bool) -> (r: bool)
    ensures
        r == (!disabled ==> numberable(position(last), reset)),
{
    match last {
        Some(e) => disabled || e.iter < u64::MAX || (!reset && (text::same(
            e.event.as_str(),
            "start",
        ) || text::same(e.event.as_str(), "halt"))),
        None => true,
    }
}

/// What a fire does: given the last entry of the journal, whether the marker is
/// there, and whether the loop is being re-armed.
pub fn guard(
    last: Option<&LoopEvent>,
    disabled: bool,
    reset: bool,
    label: &str,
    now: &str,
) -> (r: Plan)
    requires
        !disabled ==> numberable(position(last), reset),
    ensures
        r@ == guard_step(Standing { last: position(last), disabled }, reset, label@, now@),
{
    let last_iteration: u64 = match last {
        Some(e) => e.iter,
        None => 0,
    };
    if disabled {
        let mut report = String::from_str("{\"action\":\"halt\",\"label\":");
        report.append(json::quote(label).as_str());
        report.append(",\"reason\":");
        report.append(json::quote(DISABLED_REASON).as_str());
        report.append("}");
        let entries: Vec<Entry> = Vec::new();
        assert(records(entries@) =~= Seq::empty());
        return Plan {
            stopped: true,
            entries,
            status: String::from_str("HALTED"),
            iter: last_iteration,
            detail: String::from_str(DISABLED_REASON),
            report,
        };
    }
    let outcome = guard_decision(last, reset);
    let mut entries: Vec<Entry> = Vec::new();
    if outcome.halt {
        let (started, halted) = match last {
            Some(e) => (
                text::same(e.event.as_str(), "start"),
                text::same(e.event.as_str(), "halt"),
            ),
            None => (false, false),
        };
        let reason = if halted {
            HALTED_REASON
        } else {
            CRASHED_REASON
        };
        if started {
            entries.push(new_halt(now, outcome.iter, reason));
        }
        let mut report = String::from_str("{\"action\":\"halt\",\"iter\":");
        report.append(text::show_u64(outcome.iter).as_str());
        report.append(",\"label\":");
        report.append(json::quote(label).as_str());
        report.append(",\"reason\":");
        report.append(json::quote(reason).as_str());
        report.append("}");
        assert(records(entries@) =~= halt_step(position(last), label@, now@).entries);
        return Plan {
            stopped: true,
            entries,
            status: String::from_str("HALTED"),
            iter: outcome.iter,
            detail: String::from_str(reason),
            report,
        };
    }
    if outcome.log_reset {
        entries.push(new_mark("reset", now, outcome.iter - 1));
    }
    entries.push(new_mark("start", now, outcome.iter));
    assert(records(entries@) =~= continue_step(position(last), label@, now@).entries);
    let mut detail = String::from_str("iteration ");
    detail.append(text::show_u64(outcome.iter).as_str());
    detail.append(" started");
    let mut report = String::from_str("{\"action\":\"continue\",\"iter\":");
    report.append(text::show_u64(outcome.iter).as_str());
    report.append(",\"label\":");
    report.append(json::quote(label).as_str());
    report.append("}");
    Plan {
        stopped: false,
        entries,
        status: String::from_str("running"),
        iter: outcome.iter,
        detail,
        report,
    }
}

// ---- stopping a loop from outside -----------------------------------------

/// Where a loop stands once it was stopped from outside in iteration `iter`.
pub open spec fn stopped(iter: u64) -> Standing {
    Standing { last: Some(("halt"@, iter)), disabled: true }
}

/// What stops a loop from outside: an entry of its journal, and the text of
/// the marker that keeps it stopped.
pub struct Stop {
    pub entry: Entry,
    pub marker: String,
}

/// What stops a loop from outside.
pub fn stop(now: &str, iter: u64, reason: &str) -> (r: Stop)
    ensures
        r.entry@ == halt_record(now@, iter, reason@),
        r.marker@ == reason@ + "\n"@,
{
    let mut marker = String::from_str(reason);
    marker.append("\n");
    Stop { entry: new_halt(now, iter, reason), marker }
}

/// Whether a fire began longer ago than a fire may take and never ended.
pub open spec fn stuck(last: Option<(Seq<char>, u64)>, age: int, max_age: u64) -> bool {
    last is Some && (last->0).0 == "start"@ && age > max_age
}

/// Whether a fire began longer ago than a fire may take and never ended.
pub fn watchdog_stuck(last: Option<&LoopEvent>, age_secs: i64, max_age_secs: u64) -> (r: bool)
    ensures
        r == stuck(position(last), age_secs as int, max_age_secs),
{
    match last {
        Some(e) => text::same(e.event.as_str(), "start") && age_secs >= 0 && age_secs as u64
            > max_age_secs,
        None => false,
    }
}

/// The seconds since an entry was written; none where it does not say when.
pub open spec fn age(at: Option<Seq<char>>, now: Moment) -> int {
    match at {
        Some(at) => match clock::rfc3339_moment(at) {
            Some(then) => clock::seconds_between(now, then),
            None => 0,
        },
        None => 0,
    }
}

/// When the last entry was written.
pub open spec fn last_at(last: Option<&LoopEvent>) -> Option<Seq<char>> {
    match last {
        Some(e) => text::opt_string(e.at),
        None => None,
    }
}

/// The seconds since the last entry was written; none where it does not say
/// when.
pub fn event_age(last: Option<&LoopEvent>, now: Moment) -> (r: i64)
    requires
        now.wf(),
    ensures
        r == age(last_at(last), now),
{
    match last {
        Some(e) => match &e.at {
            Some(at) => match clock::parse_rfc3339(at.as_str()) {
                Some(then) => clock::whole_seconds(now, then),
                None => 0,
            },
            None => 0,
        },
        None => 0,
    }
}

/// Why the watchdog stops a loop.
pub open spec fn watchdog_reason(iter: u64, age: int, max_age: u64) -> Seq<char> {
    "watchdog: fire iter "@ + text::decimal(iter as nat) + " started "@ + text::signed_decimal(age)
        + "s ago and never completed (> "@ + text::decimal(max_age as nat)
        + "s) — agent blocked/crashed; loop DISABLED locally"@
}

/// What the watchdog finds.
pub struct Watch {
    /// The iteration in which it stops the loop, and why.
    pub stop: Option<(u64, String)>,
    /// The line it prints.
    pub report: String,
}

/// The line that the watchdog prints.
pub open spec fn watchdog_report(
    st: Standing,
    age: int,
    max_age: u64,
    label: Seq<char>,
) -> Seq<char> {
    if st.disabled {
        "{\"label\":"@ + json::quoted(label) + ",\"status\":\"already-disabled\"}"@
    } else if stuck(st.last, age, max_age) {
        "{\"age_secs\":"@ + text::signed_decimal(age) + ",\"iter\":"@ + text::decimal(
            last_iter(st.last) as nat,
        ) + ",\"label\":"@ + json::quoted(label) + ",\"reason\":"@ + json::quoted(
            watchdog_reason(last_iter(st.last), age, max_age),
        ) + ",\"status\":\"DISABLED\"}"@
    } else {
        "{\"age_secs\":"@ + text::signed_decimal(age) + ",\"label\":"@ + json::quoted(label)
            + ",\"status\":\"healthy\"}"@
    }
}

/// Whether the watchdog stops a loop.
pub open spec fn trips(st: Standing, age: int, max_age: u64) -> bool {
    !st.disabled && stuck(st.last, age, max_age)
}

/// Where a loop stands once the watchdog has looked at it.
pub open spec fn watched(st: Standing, age: int, max_age: u64) -> Standing {
    if trips(st, age, max_age) {
        stopped(last_iter(st.last))
    } else {
        st
    }
}

/// What the watchdog finds where the last entry is `age_secs` old.
pub fn watchdog_at_age(
    last: Option<&LoopEvent>,
    disabled: bool,
    age_secs: i64,
    max_age_secs: u64,
    label: &str,
) -> (r: Watch)
    ensures
        r.report@ == watchdog_report(
            Standing { last: position(last), disabled },
            age_secs as int,
            max_age_secs,
            label@,
        ),
        r.stop is Some <==> trips(
            Standing { last: position(last), disabled },
            age_secs as int,
            max_age_secs,
        ),
        r.stop matches Some(s) ==> s.0 == last_iter(position(last)) && s.1@ == watchdog_reason(
            s.0,
            age_secs as int,
            max_age_secs,
        ),
{
    if disabled {
        let mut report = String::from_str("{\"label\":");
        report.append(json::quote(label).as_str());
        report.append(",\"status\":\"already-disabled\"}");
        return Watch { stop: None, report };
    }
    let mut report = String::from_str("{\"age_secs\":");
    report.append(text::show_i64(age_secs).as_str());
    if watchdog_stuck(last, age_secs, max_age_secs) {
        let iter: u64 = match last {
            Some(e) => e.iter,
            None => 0,
        };
        let mut reason = String::from_str("watchdog: fire iter ");
        reason.append(text::show_u64(iter).as_str());
        reason.append(" started ");
        reason.append(text::show_i64(age_secs).as_str());
        reason.append("s ago and never completed (> ");
        reason.append(text::show_u64(max_age_secs).as_str());
        reason.append("s) — agent blocked/crashed; loop DISABLED locally");
        report.append(",\"iter\":");
        report.append(text::show_u64(iter).as_str());
        report.append(",\"label\":");
        report.append(json::quote(label).as_str());
        report.append(",\"reason\":");
        report.append(json::quote(reason.as_str()).as_str());
        report.append(",\"status\":\"DISABLED\"}");
        Watch { stop: Some((iter, reason)), report }
    } else {
        report.append(",\"label\":");
        report.append(json::quote(label).as_str());
        report.append(",\"status\":\"healthy\"}");
        Watch { stop: None, report }
    }
}

/// What the watchdog finds at a point in time.
pub fn watchdog(
    last: Option<&LoopEvent>,
    disabled: bool,
    now: Moment,
    max_age_secs: u64,
    label: &str,
) -> (r: Watch)
    requires
        now.wf(),
    ensures
        r.report@ == watchdog_report(
            Standing { last: position(last), disabled },
            age(last_at(last), now),
            max_age_secs,
            label@,
        ),
        r.stop is Some <==> trips(
            Standing { last: position(last), disabled },
            age(last_at(last), now),
            max_age_secs,
        ),
        r.stop matches Some(s) ==> s.0 == last_iter(position(last)) && s.1@ == watchdog_reason(
            s.0,
            age(last_at(last), now),
            max_age_secs,
        ),
{
    watchdog_at_age(last, disabled, event_age(last, now), max_age_secs, label)
}

// ---- a checkpoint ---------------------------------------------------------

/// The names that a checkpoint may have, in the order in which they are tried:
/// that of its second, then with the number of the process, then with a count
/// behind it.
pub open spec fn checkpoint_name(stamp: Seq<char>, pid: u64, k: nat) -> Seq<char> {
    let second = "checkpoint-"@ + stamp;
    let process = second + "-"@ + text::decimal(pid as nat);
    if k == 0 {
        second + ".md"@
    } else if k == 1 {
        process + ".md"@
    } else {
        process + "-"@ + text::decimal(k) + ".md"@
    }
}

/// The first of the names from the `k`th on that is not taken.
pub open spec fn first_free(stamp: Seq<char>, pid: u64, taken: Seq<Seq<char>>, k: nat) -> nat
    decreases taken.len() + 1 - k,
{
    if k > taken.len() || !taken.contains(checkpoint_name(stamp, pid, k)) {
        k
    } else {
        first_free(stamp, pid, taken, k + 1)
    }
}

/// The name of a checkpoint beside files of the taken names.
pub open spec fn free_name(stamp: Seq<char>, pid: u64, taken: Seq<Seq<char>>) -> Seq<char> {
    checkpoint_name(stamp, pid, first_free(stamp, pid, taken, 0))
}

/// The text of a checkpoint.
pub open spec fn checkpoint_text(
    now: Seq<char>,
    label: Seq<char>,
    iter: u64,
    note: Option<Seq<char>>,
    body: Seq<char>,
) -> Seq<char> {
    let head = "# checkpoint "@ + now + " — label="@ + label + " iter="@ + text::decimal(
        iter as nat,
    ) + "\n\n"@;
    let noted = match note {
        Some(n) => head + "**"@ + n + "**\n\n"@,
        None => head,
    };
    if text::trimmed(body).len() > 0 {
        noted + text::trimmed(body) + "\n"@
    } else {
        noted
    }
}

/// What a checkpoint writes.
pub struct Checkpoint {
    pub name: String,
    pub content: String,
    pub entry: Entry,
    pub iter: u64,
    pub detail: String,
    pub report: String,
}

/// One of the names that a checkpoint may have.
fn name_checkpoint(stamp: &str, pid: u64, k: usize) -> (r: String)
    ensures
        r@ == checkpoint_name(stamp@, pid, k as nat),
{
    let mut name = String::from_str("checkpoint-");
    name.append(stamp);
    if k > 0 {
        name.append("-");
        name.append(text::show_u64(pid).as_str());
    }
    if k > 1 {
        name.append("-");
        name.append(text::show_usize(k).as_str());
    }
    name.append(".md");
    name
}

/// The first name that is not taken.
fn free_checkpoint(stamp: &str, pid: u64, taken: &Vec<String>) -> (r: String)
    ensures
        r@ == free_name(stamp@, pid, text::texts(taken@)),
        !text::texts(taken@).contains(r@),
{
    let ghost names = text::texts(taken@);
    let mut k: usize = 0;
    let mut name = name_checkpoint(stamp, pid, k);
    while lists::lists(taken, name.as_str())
        invariant
            k <= taken@.len(),
            names == text::texts(taken@),
            name@ == checkpoint_name(stamp@, pid, k as nat),
            forall|j: nat| j < k ==> names.contains(#[trigger] checkpoint_name(stamp@, pid, j)),
            free_name(stamp@, pid, names) == checkpoint_name(
                stamp@,
                pid,
                first_free(stamp@, pid, names, k as nat),
            ),
        decreases taken@.len() - k,
    {
        if k >= taken.len() {
            proof {
                lemma_some_name_is_free(stamp@, pid, names);
            }
        }
        k = k + 1;
        name = name_checkpoint(stamp, pid, k);
    }
    name
}

/// What a checkpoint writes: `now` and `stamp` say when, `taken` which files are
/// there already. No such file is written again.
pub fn checkpoint(
    last: Option<&LoopEvent>,
    dir: &str,
    label: &str,
    note: Option<&str>,
    body: &str,
    now: &str,
    stamp: &str,
    taken: &Vec<String>,
    pid: u64,
) -> (r: Checkpoint)
    ensures
        r.iter == last_iter(position(last)),
        r.name@ == free_name(stamp@, pid, text::texts(taken@)),
        !text::texts(taken@).contains(r.name@),
        r.content@ == checkpoint_text(now@, label@, r.iter, text::opt(note), body@),
        r.entry@ == (Record {
            event: "done"@,
            at: now@,
            iter: r.iter,
            note: Some(text::opt(note)),
            reason: None,
        }),
        r.detail@ == "iter "@ + text::decimal(r.iter as nat) + " checkpointed -> "@ + r.name@,
        r.report@ == "{\"checkpoint\":"@ + json::quoted(r.name@) + ",\"iter\":"@ + text::decimal(
            r.iter as nat,
        ) + ",\"path\":"@ + json::quoted(
            paths::under(files::label_root(dir@, label@), r.name@),
        ) + "}"@,
{
    let iter: u64 = match last {
        Some(e) => e.iter,
        None => 0,
    };
    let name = free_checkpoint(stamp, pid, taken);
    let mut content = String::from_str("# checkpoint ");
    content.append(now);
    content.append(" — label=");
    content.append(label);
    content.append(" iter=");
    content.append(text::show_u64(iter).as_str());
    content.append("\n\n");
    match note {
        Some(n) => {
            content.append("**");
            content.append(n);
            content.append("**\n\n");
        },
        None => {},
    }
    if !text::is_blank(body) {
        content.append(text::trim(body).as_str());
        content.append("\n");
    }
    let mut detail = String::from_str("iter ");
    detail.append(text::show_u64(iter).as_str());
    detail.append(" checkpointed -> ");
    detail.append(name.as_str());
    let path = paths::join(files::loop_label_dir(dir, label).as_str(), name.as_str());
    let mut report = String::from_str("{\"checkpoint\":");
    report.append(json::quote(name.as_str()).as_str());
    report.append(",\"iter\":");
    report.append(text::show_u64(iter).as_str());
    report.append(",\"path\":");
    report.append(json::quote(path.as_str()).as_str());
    report.append("}");
    let entry = Entry {
        event: String::from_str("done"),
        at: String::from_str(now),
        iter,
        note: Some(
            match note {
                Some(n) => Some(String::from_str(n)),
                None => None,
            },
        ),
        reason: None,
    };
    Checkpoint { name, content, entry, iter, detail, report }
}

pub const INDEX_HEADER: &'static str = "# Checkpoint Index (append-only — newest at bottom)\n\n| at | file | note |\n|---|---|---|\n";

/// What a checkpoint adds to the index: a row, and the header where the index
/// is new.
pub open spec fn index_addition(
    fresh: bool,
    at: Seq<char>,
    name: Seq<char>,
    note: Seq<char>,
) -> Seq<char> {
    (if fresh {
        INDEX_HEADER@
    } else {
        ""@
    }) + "| "@ + at + " | "@ + name + " | "@ + text::replaced(note, '|', "\\|"@) + " |\n"@
}

/// What a checkpoint adds to the index.
pub fn index_rows(fresh: bool, at: &str, name: &str, note: &str) -> (r: String)
    ensures
        r@ == index_addition(fresh, at@, name@, note@),
{
    let mut r = String::from_str(
        if fresh {
            INDEX_HEADER
        } else {
            ""
        },
    );
    r.append("| ");
    r.append(at);
    r.append(" | ");
    r.append(name);
    r.append(" | ");
    r.append(text::replace_char(note, '|', "\\|").as_str());
    r.append(" |\n");
    r
}

/// The recovery pointer: what the loop is doing and where its state is kept.
pub open spec fn entrypoint_text(
    now: Seq<char>,
    dir: Seq<char>,
    label: Seq<char>,
    status: Seq<char>,
    iter: u64,
    detail: Seq<char>,
) -> Seq<char> {
    let home = files::label_root(dir, label);
    "# LOOP RECOVERY ENTRYPOINT — read this FIRST on any resume\n\nGenerated: "@ + now
        + "\nLoop label: `"@ + label + "`\nStatus: **"@ + status + "** (iteration "@ + text::decimal(
        iter as nat,
    ) + ") — "@ + detail
        + "\n\n## Where to look (in order)\n1. Latest full checkpoint: `ls "@ + home
        + "/checkpoint-*.md | sort | tail -1`\n2. Per-iteration index:    `"@ + home
        + "/INDEX.md`\n3. Status journal:         `"@ + home
        + "/status.jsonl` (last line = current position)\n4. All loops:              `ls "@
        + files::checkpoint_root(dir)
        + package::named(
            "/`\n\n## Rule\nIf Status is **HALTED**, the loop stopped because a previous fire died (likely an\nAPI error). Do NOT re-arm blindly: read the latest checkpoint, fix the cause, then\nre-arm — the first fire after re-arming runs `"@,
            "-loop guard --label "@,
        )
        + label + " --reset`.\n"@
}

/// The recovery pointer.
pub fn entrypoint(now: &str, dir: &str, label: &str, status: &str, iter: u64, detail: &str) -> (r:
    String)
    ensures
        r@ == entrypoint_text(now@, dir@, label@, status@, iter, detail@),
{
    let home = files::loop_label_dir(dir, label);
    let mut r = String::from_str(
        "# LOOP RECOVERY ENTRYPOINT — read this FIRST on any resume\n\nGenerated: ",
    );
    r.append(now);
    r.append("\nLoop label: `");
    r.append(label);
    r.append("`\nStatus: **");
    r.append(status);
    r.append("** (iteration ");
    r.append(text::show_u64(iter).as_str());
    r.append(") — ");
    r.append(detail);
    r.append("\n\n## Where to look (in order)\n1. Latest full checkpoint: `ls ");
    r.append(home.as_str());
    r.append("/checkpoint-*.md | sort | tail -1`\n2. Per-iteration index:    `");
    r.append(home.as_str());
    r.append("/INDEX.md`\n3. Status journal:         `");
    r.append(home.as_str());
    r.append("/status.jsonl` (last line = current position)\n4. All loops:              `ls ");
    r.append(files::loop_ckpt_root(dir).as_str());
    r.append(
        package::name_in(
            "/`\n\n## Rule\nIf Status is **HALTED**, the loop stopped because a previous fire died (likely an\nAPI error). Do NOT re-arm blindly: read the latest checkpoint, fix the cause, then\nre-arm — the first fire after re-arming runs `",
            "-loop guard --label ",
        ).as_str(),
    );
    r.append(label);
    r.append(" --reset`.\n");
    r
}

// ---- laws -----------------------------------------------------------------

/// Where a loop stands after a fire.
pub open spec fn fired(st: Standing, reset: bool, label: Seq<char>, now: Seq<char>) -> Standing {
    let armed = rearmed(st, reset);
    recorded(armed, guard_step(armed, reset, label, now).entries)
}

/// Whether a fire halts.
pub open spec fn fire_halts(st: Standing, reset: bool, label: Seq<char>, now: Seq<char>) -> bool {
    guard_step(rearmed(st, reset), reset, label, now).stopped
}

/// Where a loop stands after a checkpoint.
pub open spec fn checkpointed(st: Standing) -> Standing {
    Standing { last: Some(("done"@, last_iter(st.last))), ..st }
}

/// Where a loop stands after `n` fires at those times, none of which re-arms it.
pub open spec fn fired_times(st: Standing, label: Seq<char>, times: Seq<Seq<char>>) -> Standing
    decreases times.len(),
{
    if times.len() == 0 {
        st
    } else {
        fired(fired_times(st, label, times.drop_last()), false, label, times.last())
    }
}

/// The words of the journal differ.
proof fn lemma_words_differ()
    ensures
        "start"@ != "halt"@,
        "start"@ != "done"@,
        "start"@ != "reset"@,
        "halt"@ != "done"@,
        "halt"@ != "reset"@,
{
    reveal_strlit("start");
    reveal_strlit("halt");
    reveal_strlit("done");
    reveal_strlit("reset");
    assert("start"@[0] == 's');
    assert("halt"@[0] == 'h');
    assert("done"@[0] == 'd');
    assert("reset"@[0] == 'r');
}

proof fn lemma_entry_is_one_line(r: Record)
    ensures
        !line_of(r).contains('\n'),
        line_of(r).len() > 0,
        line_of(r)[0] == '{',
        line_of(r).last() == '}',
{
    reveal_strlit("{\"at\":");
    reveal_strlit(",\"event\":");
    reveal_strlit(",\"iter\":");
    reveal_strlit(",\"note\":");
    reveal_strlit(",\"reason\":");
    reveal_strlit("null");
    reveal_strlit("}");
    json::quoted_is_one_line(r.at);
    json::quoted_is_one_line(r.event);
    text::lemma_decimal_digits(r.iter as nat);
    let number = text::decimal(r.iter as nat);
    let a = "{\"at\":"@;
    let b = a + json::quoted(r.at);
    let c = b + ",\"event\":"@;
    let d = c + json::quoted(r.event);
    let e = d + ",\"iter\":"@;
    let head = e + number;
    text::lemma_lacks(a, json::quoted(r.at), '\n');
    text::lemma_lacks(b, ",\"event\":"@, '\n');
    text::lemma_lacks(c, json::quoted(r.event), '\n');
    text::lemma_lacks(d, ",\"iter\":"@, '\n');
    text::lemma_lacks(e, number, '\n');
    let noted = match r.note {
        Some(n) => {
            match n {
                Some(s) => {
                    json::quoted_is_one_line(s);
                },
                None => {},
            }
            text::lemma_lacks(head, ",\"note\":"@, '\n');
            text::lemma_lacks(head + ",\"note\":"@, json::quoted_or_null(n), '\n');
            head + ",\"note\":"@ + json::quoted_or_null(n)
        },
        None => head,
    };
    let reasoned = match r.reason {
        Some(s) => {
            json::quoted_is_one_line(s);
            text::lemma_lacks(noted, ",\"reason\":"@, '\n');
            text::lemma_lacks(noted + ",\"reason\":"@, json::quoted(s), '\n');
            noted + ",\"reason\":"@ + json::quoted(s)
        },
        None => noted,
    };
    text::lemma_lacks(reasoned, "}"@, '\n');
    assert(line_of(r) == reasoned + "}"@);
    assert(b[0] == a[0] && c[0] == a[0] && d[0] == a[0] && e[0] == a[0] && head[0] == a[0]);
    assert(noted[0] == a[0]);
    assert(reasoned[0] == a[0]);
}

/// The entry that was added to a journal last is the one that is read from it,
/// whatever its texts hold.
pub proof fn added_entry_is_read_back(raw: Seq<char>, r: Record)
    requires
        raw.len() == 0 || raw.last() == '\n',
    ensures
        last_line(raw + line_of(r) + seq!['\n']) == Some(line_of(r)),
{
    lemma_entry_is_one_line(r);
    let l = line_of(r);
    let whole = raw + l + seq!['\n'];
    text::lemma_last_piece(raw, l, '\n');
    let p = text::pieces(raw + l, '\n');
    assert(whole.drop_last() =~= raw + l);
    assert(text::pieces(whole, '\n') == p.push(Seq::empty()));
    assert(p.push(Seq::empty()).drop_last() =~= p);
    let lines = text::lines_of(whole);
    assert(lines == p.map_values(|x: Seq<char>| text::without_suffix(x, '\r')));
    assert(lines.last() == l);
    assert(text::trimmed(l) == l);
}

/// A loop that is disabled, or whose last fire died, halts at the next fire and
/// at every one after it, however many there are, until someone re-arms it.
pub proof fn halted_loop_stays_halted(
    st: Standing,
    label: Seq<char>,
    times: Seq<Seq<char>>,
    now: Seq<char>,
)
    requires
        st.disabled || interrupted(st.last),
    ensures
        fire_halts(fired_times(st, label, times), false, label, now),
        fired_times(st, label, times).disabled == st.disabled,
        last_iter(fired_times(st, label, times).last) == last_iter(st.last),
    decreases times.len(),
{
    if times.len() > 0 {
        halted_loop_stays_halted(st, label, times.drop_last(), times.last());
    }
}

/// A crash is put on record once: the first fire after it adds one entry, and
/// the fires after that add none.
pub proof fn crash_is_recorded_once(
    st: Standing,
    label: Seq<char>,
    now: Seq<char>,
    later: Seq<char>,
)
    requires
        !st.disabled,
        interrupted(st.last),
    ensures
        guard_step(st, false, label, now).entries.len() == (if (st.last->0).0 == "start"@ {
            1nat
        } else {
            0
        }),
        guard_step(fired(st, false, label, now), false, label, later).entries.len() == 0,
{
    lemma_words_differ();
}

/// A fire that goes on leaves its iteration open: unless it is checkpointed,
/// the next fire halts in that iteration.
pub proof fn unfinished_fire_halts_the_next(
    st: Standing,
    reset: bool,
    label: Seq<char>,
    now: Seq<char>,
    later: Seq<char>,
)
    requires
        !fire_halts(st, reset, label, now),
    ensures
        fire_halts(fired(st, reset, label, now), false, label, later),
        guard_step(fired(st, reset, label, now), false, label, later).iter == guard_step(
            rearmed(st, reset),
            reset,
            label,
            now,
        ).iter,
{
}

/// A fire that is checkpointed is followed by one that goes on, in the next
/// iteration.
pub proof fn checkpointed_fire_goes_on(
    st: Standing,
    reset: bool,
    label: Seq<char>,
    now: Seq<char>,
    later: Seq<char>,
)
    requires
        !fire_halts(st, reset, label, now),
        last_iter(st.last) < u64::MAX - 1,
    ensures
        !fire_halts(checkpointed(fired(st, reset, label, now)), false, label, later),
        guard_step(checkpointed(fired(st, reset, label, now)), false, label, later).iter
            == guard_step(rearmed(st, reset), reset, label, now).iter + 1,
{
    lemma_words_differ();
}

/// Re-arming always lets the next fire go on, in an iteration above every one
/// on record, whatever stopped the loop.
pub proof fn rearmed_fire_goes_on(st: Standing, label: Seq<char>, now: Seq<char>)
    requires
        last_iter(st.last) < u64::MAX,
    ensures
        !fire_halts(st, true, label, now),
        guard_step(rearmed(st, true), true, label, now).iter == last_iter(st.last) + 1,
        !fired(st, true, label, now).disabled,
{
}

/// Once the watchdog has stopped a loop, fires halt until someone re-arms it.
pub proof fn watchdog_stops_the_loop(
    st: Standing,
    age: int,
    max_age: u64,
    label: Seq<char>,
    times: Seq<Seq<char>>,
    now: Seq<char>,
)
    requires
        trips(st, age, max_age),
    ensures
        fire_halts(fired_times(watched(st, age, max_age), label, times), false, label, now),
{
    halted_loop_stays_halted(watched(st, age, max_age), label, times, now);
}

/// The watchdog leaves a loop alone whose last fire ended, and one that it
/// stopped before.
pub proof fn watchdog_spares_finished_loops(st: Standing, age: int, max_age: u64)
    ensures
        !trips(checkpointed(st), age, max_age),
        watched(watched(st, age, max_age), age, max_age) == watched(st, age, max_age),
{
    lemma_words_differ();
}

proof fn lemma_names_of_a_second_differ(stamp: Seq<char>, pid: u64, j: nat, k: nat)
    requires
        j < k,
    ensures
        checkpoint_name(stamp, pid, j) != checkpoint_name(stamp, pid, k),
{
    reveal_strlit("-");
    let a = checkpoint_name(stamp, pid, j);
    let b = checkpoint_name(stamp, pid, k);
    text::lemma_decimal_digits(k);
    if j < 2 {
        assert(a.len() < b.len());
    } else if a == b {
        let head = "checkpoint-"@ + stamp + "-"@ + text::decimal(pid as nat) + "-"@;
        let m = head.len() as int;
        assert(text::decimal(j) =~= a.subrange(m, a.len() - ".md"@.len()));
        assert(text::decimal(k) =~= b.subrange(m, b.len() - ".md"@.len()));
        text::lemma_decimal_value(j);
        text::lemma_decimal_value(k);
    }
}

proof fn lemma_some_name_is_free(stamp: Seq<char>, pid: u64, taken: Seq<Seq<char>>)
    ensures
        exists|k: nat|
            k <= taken.len() && !taken.contains(#[trigger] checkpoint_name(stamp, pid, k)),
{
    if forall|k: nat| k <= taken.len() ==> taken.contains(#[trigger] checkpoint_name(stamp, pid, k)) {
        let names = Seq::new(
            (taken.len() + 1) as nat,
            |k: int| checkpoint_name(stamp, pid, k as nat),
        );
        assert forall|i: int, j: int| 0 <= i < j < names.len() implies names[i] != names[j] by {
            lemma_names_of_a_second_differ(stamp, pid, i as nat, j as nat);
        }
        assert(names.no_duplicates());
        names.unique_seq_to_set();
        assert forall|s: Seq<char>| names.to_set().contains(s) implies taken.to_set().contains(s) by {
            let i = choose|i: int| 0 <= i < names.len() && names[i] == s;
            assert(taken.contains(checkpoint_name(stamp, pid, i as nat)));
        }
        vstd::seq_lib::seq_to_set_is_finite(taken);
        vstd::set_lib::lemma_len_subset(names.to_set(), taken.to_set());
        taken.lemma_cardinality_of_set();
    }
}

proof fn lemma_first_free(stamp: Seq<char>, pid: u64, taken: Seq<Seq<char>>, k: nat)
    requires
        forall|j: nat| j < k ==> taken.contains(#[trigger] checkpoint_name(stamp, pid, j)),
    ensures
        !taken.contains(checkpoint_name(stamp, pid, first_free(stamp, pid, taken, k))),
    decreases taken.len() + 1 - k,
{
    if k > taken.len() {
        lemma_some_name_is_free(stamp, pid, taken);
    } else if taken.contains(checkpoint_name(stamp, pid, k)) {
        lemma_first_free(stamp, pid, taken, k + 1);
    }
}

/// A checkpoint is never overwritten: however many are written within a second,
/// by one process or by several, each has a name of its own. The first has that
/// of the second.
pub proof fn checkpoints_are_never_overwritten(stamp: Seq<char>, pid: u64, taken: Seq<Seq<char>>)
    ensures
        !taken.contains(free_name(stamp, pid, taken)),
        taken.no_duplicates() ==> taken.push(free_name(stamp, pid, taken)).no_duplicates(),
        !taken.contains("checkpoint-"@ + stamp + ".md"@) ==> free_name(stamp, pid, taken)
            == "checkpoint-"@ + stamp + ".md"@,
{
    lemma_first_free(stamp, pid, taken, 0);
    let name = free_name(stamp, pid, taken);
    if taken.no_duplicates() {
        let all = taken.push(name);
        assert forall|i: int, j: int| 0 <= i < all.len() && 0 <= j < all.len() && i != j implies all[i]
            != all[j] by {
            if i < taken.len() && j < taken.len() {
                assert(taken[i] != taken[j]);
            } else if i < taken.len() {
                assert(taken.contains(taken[i]));
            } else {
                assert(taken.contains(taken[j]));
            }
        }
    }
}

/// A fire goes on after a fire that came to its end, after one that was re-armed
/// and where there was none, and halts after one that began and never ended or
/// that halted. A halt keeps the number of the iteration; what goes on has the
/// next one, and the first is 1. Only re-arming after a halt is put on record.
pub proof fn crashed_fires_halt_the_loop(event: Seq<char>, iter: u64, reset: bool)
    requires
        iter < u64::MAX,
    ensures
        ({
            let d = decision(Some((event, iter)), reset);
            &&& d.halt <==> !reset && (event == "start"@ || event == "halt"@)
            &&& d.log_reset <==> reset && (event == "start"@ || event == "halt"@)
            &&& d.iter == if d.halt {
                iter as int
            } else {
                iter + 1
            }
        }),
        decision(None, reset) == (GuardOutcome { halt: false, iter: 1, log_reset: false }),
{
}

/// What a fire does is what the guard decides; a loop with the marker of the
/// watchdog halts whatever its journal says.
pub proof fn fires_obey_the_guard(st: Standing, reset: bool, label: Seq<char>, now: Seq<char>)
    requires
        last_iter(st.last) < u64::MAX,
    ensures
        ({
            let s = guard_step(st, reset, label, now);
            let d = decision(st.last, reset);
            &&& s.stopped <==> st.disabled || d.halt
            &&& !st.disabled ==> s.iter == d.iter
            &&& s.status == if s.stopped {
                "HALTED"@
            } else {
                "running"@
            }
        }),
{
}

/// The journal says what a fire did: one that goes on writes that it started, and
/// before that, where it was re-armed, that it was reset; one that halts after a
/// crash writes the halt, with a reason; one that halts again writes nothing.
pub proof fn fires_are_recorded(st: Standing, reset: bool, label: Seq<char>, now: Seq<char>)
    requires
        last_iter(st.last) < u64::MAX,
    ensures
        ({
            let s = guard_step(st, reset, label, now);
            let e = s.entries;
            let crashed = st.last is Some && (st.last->0).0 == "start"@;
            let halted = st.last is Some && (st.last->0).0 == "halt"@;
            &&& !s.stopped ==> e.len() > 0 && e.last() == (Record {
                event: "start"@,
                at: now,
                iter: (last_iter(st.last) + 1) as u64,
                note: None,
                reason: None,
            })
            &&& !s.stopped && (crashed || halted) ==> e.len() == 2 && e[0] == (Record {
                event: "reset"@,
                at: now,
                iter: last_iter(st.last),
                note: None,
                reason: None,
            })
            &&& !s.stopped && !crashed && !halted ==> e.len() == 1
            &&& s.stopped && crashed && !st.disabled ==> e.len() == 1 && e[0].event == "halt"@
                && e[0].at == now && e[0].iter == last_iter(st.last) && e[0].reason == Some(
                s.detail,
            )
            &&& s.stopped && (!crashed || st.disabled) ==> e.len() == 0
        }),
{
}

/// The watchdog trips exactly where a fire began, did not end, and began longer
/// ago than it may take; not where the loop is stopped already.
pub proof fn watchdog_trips_on_stuck_fires(
    last: Option<(Seq<char>, u64)>,
    disabled: bool,
    age: int,
    max_age: u64,
)
    ensures
        trips(Standing { last, disabled }, age, max_age) <==> !disabled && (last matches Some(e)
            && e.0 == "start"@) && age > max_age,
        trips(Standing { last, disabled }, age, max_age) ==> watched(
            Standing { last, disabled },
            age,
            max_age,
        ) == (Standing { last: Some(("halt"@, (last->0).1)), disabled: true }),
        !trips(Standing { last, disabled }, age, max_age) ==> watched(
            Standing { last, disabled },
            age,
            max_age,
        ) == (Standing { last, disabled }),
{
}

/// The age of an entry is the time that has passed since it says it was written,
/// in whole seconds; an entry that does not say when is as old as nothing.
pub proof fn entries_age(at: Seq<char>, now: Moment, n: int)
    requires
        n > 0,
        now.nanos < 1_000_000_000,
        clock::rfc3339_moment(at) matches Some(then) ==> then.nanos < 1_000_000_000,
    ensures
        clock::rfc3339_moment(at) matches Some(then) ==> (age(Some(at), now) >= n <==> (now.secs
            * 1_000_000_000 + now.nanos) - (then.secs * 1_000_000_000 + then.nanos) >= n
            * 1_000_000_000),
        clock::rfc3339_moment(at) is None ==> age(Some(at), now) == 0,
        age(None, now) == 0,
{
    if clock::rfc3339_moment(at) is Some {
        clock::time_passes_in_full(now, clock::rfc3339_moment(at)->0, n);
    }
}

/// The last entry is on the last line that is not blank.
pub proof fn blank_lines_are_no_entries(lines: Seq<Seq<char>>)
    ensures
        -1 <= last_filled(lines) < lines.len(),
        last_filled(lines) >= 0 ==> text::trimmed(lines[last_filled(lines)]).len() > 0,
        forall|j: int|
            last_filled(lines) < j < lines.len() ==> text::trimmed(#[trigger] lines[j]).len() == 0,
    decreases lines.len(),
{
    if lines.len() > 0 {
        let w = lines.drop_last();
        blank_lines_are_no_entries(w);
        assert forall|j: int| last_filled(lines) < j < lines.len() implies text::trimmed(
            #[trigger] lines[j],
        ).len() == 0 by {
            if j < w.len() {
                assert(w[j] == lines[j]);
            }
        }
    }
}

/// A checkpoint holds what it was given: when and of which loop it is, the note,
/// and the state without the blanks around it.
pub proof fn checkpoints_hold_the_state(
    now: Seq<char>,
    label: Seq<char>,
    iter: u64,
    note: Option<Seq<char>>,
    body: Seq<char>,
)
    ensures
        ({
            let s = checkpoint_text(now, label, iter, note, body);
            let head = "# checkpoint "@ + now + " — label="@ + label + " iter="@ + text::decimal(
                iter as nat,
            ) + "\n\n"@;
            let noted = match note {
                Some(n) => "**"@ + n + "**\n\n"@,
                None => ""@,
            };
            let told = if text::trimmed(body).len() > 0 {
                text::trimmed(body) + "\n"@
            } else {
                ""@
            };
            s == head + noted + told
        }),
{
    reveal_strlit("");
    let head = "# checkpoint "@ + now + " — label="@ + label + " iter="@ + text::decimal(
        iter as nat,
    ) + "\n\n"@;
    let noted = match note {
        Some(n) => "**"@ + n + "**\n\n"@,
        None => ""@,
    };
    let told = if text::trimmed(body).len() > 0 {
        text::trimmed(body) + "\n"@
    } else {
        ""@
    };
    assert(checkpoint_text(now, label, iter, note, body) =~= head + noted + told);
}

/// The line of an entry says what happened, when and in which iteration, and the
/// note and the reason where there are any.
#[verifier::rlimit(80)]
#[verifier::spinoff_prover]
pub proof fn lines_say_what_happened(r: Record)
    ensures
        ({
            let note = match r.note {
                Some(Some(n)) => ",\"note\":"@ + json::quoted(n),
                Some(None) => ",\"note\":null"@,
                None => ""@,
            };
            let reason = match r.reason {
                Some(s) => ",\"reason\":"@ + json::quoted(s),
                None => ""@,
            };
            line_of(r) == "{\"at\":"@ + json::quoted(r.at) + ",\"event\":"@ + json::quoted(r.event)
                + ",\"iter\":"@ + text::decimal(r.iter as nat) + note + reason + "}"@
        }),
{
    reveal_strlit("");
    reveal_strlit("null");
    reveal_strlit(",\"note\":");
    reveal_strlit(",\"note\":null");
    assert(",\"note\":"@ + "null"@ =~= ",\"note\":null"@);
    let note = match r.note {
        Some(Some(n)) => ",\"note\":"@ + json::quoted(n),
        Some(None) => ",\"note\":null"@,
        None => ""@,
    };
    let reason = match r.reason {
        Some(s) => ",\"reason\":"@ + json::quoted(s),
        None => ""@,
    };
    let head = "{\"at\":"@ + json::quoted(r.at) + ",\"event\":"@ + json::quoted(r.event)
        + ",\"iter\":"@ + text::decimal(r.iter as nat);
    assert(line_of(r) =~= head + note + reason + "}"@);
}

/// The watchdog says whether it stopped the loop, and why; that it was stopped
/// already; or that nothing is wrong.
#[verifier::rlimit(80)]
#[verifier::spinoff_prover]
pub proof fn watchdog_says_what_it_did(st: Standing, age: int, max_age: u64, label: Seq<char>)
    ensures
        trips(st, age, max_age) ==> text::ends(
            watchdog_report(st, age, max_age, label),
            json::quoted(watchdog_reason(last_iter(st.last), age, max_age))
                + ",\"status\":\"DISABLED\"}"@,
        ),
        st.disabled ==> text::ends(
            watchdog_report(st, age, max_age, label),
            ",\"status\":\"already-disabled\"}"@,
        ),
        !st.disabled && !trips(st, age, max_age) ==> text::ends(
            watchdog_report(st, age, max_age, label),
            ",\"status\":\"healthy\"}"@,
        ),
        text::begins(
            watchdog_reason(last_iter(st.last), age, max_age),
            "watchdog: fire iter "@ + text::decimal(last_iter(st.last) as nat) + " started "@
                + text::signed_decimal(age) + "s ago and never completed (> "@ + text::decimal(
                max_age as nat,
            ) + "s)"@,
        ),
{
    let r = watchdog_report(st, age, max_age, label);
    let why = watchdog_reason(last_iter(st.last), age, max_age);
    let a = json::quoted(why) + ",\"status\":\"DISABLED\"}"@;
    let b = ",\"status\":\"already-disabled\"}"@;
    let c = ",\"status\":\"healthy\"}"@;
    if st.disabled {
        assert(r.subrange(r.len() - b.len(), r.len() as int) =~= b);
    } else if trips(st, age, max_age) {
        assert(r.subrange(r.len() - a.len(), r.len() as int) =~= a);
    } else {
        assert(r.subrange(r.len() - c.len(), r.len() as int) =~= c);
    }
    reveal_strlit("s)");
    reveal_strlit("s) — agent blocked/crashed; loop DISABLED locally");
    let head = "watchdog: fire iter "@ + text::decimal(last_iter(st.last) as nat) + " started "@
        + text::signed_decimal(age) + "s ago and never completed (> "@ + text::decimal(
        max_age as nat,
    ) + "s)"@;
    assert(why.subrange(0, head.len() as int) =~= head);
}

/// The entrypoint for a recovery says which loop it is of, where it stands and
/// why.
#[verifier::rlimit(80)]
#[verifier::spinoff_prover]
pub proof fn entrypoint_says_where_a_loop_stands(
    now: Seq<char>,
    dir: Seq<char>,
    label: Seq<char>,
    status: Seq<char>,
    iter: u64,
    detail: Seq<char>,
)
    ensures
        text::has_text(
            entrypoint_text(now, dir, label, status, iter, detail),
            "\nLoop label: `"@ + label + "`\nStatus: **"@ + status + "** (iteration "@
                + text::decimal(iter as nat) + ") — "@ + detail + "\n"@,
        ),
{
    let s = entrypoint_text(now, dir, label, status, iter, detail);
    let head = "# LOOP RECOVERY ENTRYPOINT — read this FIRST on any resume\n\nGenerated: "@ + now;
    let part = "\nLoop label: `"@ + label + "`\nStatus: **"@ + status + "** (iteration "@
        + text::decimal(iter as nat) + ") — "@ + detail + "\n"@;
    let n = (head + part).len() as int;
    reveal_strlit("\n");
    reveal_strlit("\n\n## Where to look (in order)\n1. Latest full checkpoint: `ls ");
    assert(s.subrange(head.len() as int, n) =~= part);
    assert(text::is_at(s, head.len() as int, part));
}

/// A row of the index names the time, the file and the note of a checkpoint; the
/// header comes once, before the first.
pub proof fn index_rows_name_the_checkpoint(
    at: Seq<char>,
    name: Seq<char>,
    note: Seq<char>,
)
    requires
        !note.contains('|'),
    ensures
        index_addition(false, at, name, note) == "| "@ + at + " | "@ + name + " | "@ + note
            + " |\n"@,
        index_addition(true, at, name, note) == INDEX_HEADER@ + index_addition(
            false,
            at,
            name,
            note,
        ),
{
    reveal_strlit("");
    text::replacing_changes_one_character(note, note, '|', "\\|"@);
    let row = "| "@ + at + " | "@ + name + " | "@ + note + " |\n"@;
    assert(index_addition(false, at, name, note) =~= row);
    assert(index_addition(true, at, name, note) =~= INDEX_HEADER@ + row);
}

/// A halted fire says which of three things stopped it: the marker of the
/// watchdog, a fire before it that never ended, or a halt that nobody lifted.
pub proof fn halts_say_why(st: Standing, label: Seq<char>, now: Seq<char>)
    ensures
        st.disabled ==> guard_step(st, false, label, now).detail
            == "loop DISABLED by the watchdog (a prior fire was blocked/crashed) — re-arm with --reset"@,
        !st.disabled && (st.last matches Some(e) && e.0 == "start"@) ==> guard_step(
            st,
            false,
            label,
            now,
        ).detail
            == "previous iteration started but never completed — likely an API error / crash mid-fire"@,
        !st.disabled && (st.last matches Some(e) && e.0 == "halt"@) ==> guard_step(
            st,
            false,
            label,
            now,
        ).detail
            == "loop is HALTED from a prior crash and was not re-armed (pass --reset to resume)"@,
{
    reveal_strlit("start");
    reveal_strlit("halt");
    assert("start"@.len() == 5 && "halt"@.len() == 4);
}

} // verus!
