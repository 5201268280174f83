//! Pausing loops and resuming them.

use vstd::prelude::*;

use crate::json;
use crate::loops::interval;
use crate::loops::interval::IntervalError;
use crate::loops::prompt;
use crate::text;

verus! {

// ---- what is kept ---------------------------------------------------------

/// A task that was under way when its loop was paused.
pub struct InflightTask {
    pub id: String,
    pub status: String,
    pub subject: String,
    pub active_form: Option<String>,
}

/// A job of the scheduler, as it is handed in to be paused.
pub struct CronListEntry {
    pub id: String,
    pub cron: String,
    pub recurring: bool,
    pub prompt: String,
    pub cadence_human: Option<String>,
    pub inflight_tasks: Vec<InflightTask>,
}

/// A job as a pause keeps it.
pub struct PausedJob {
    pub id_original: String,
    pub cron: String,
    pub cadence_human: String,
    pub recurring: bool,
    pub prompt: String,
    pub canary_added: bool,
    pub paused_at: String,
    pub label: String,
    pub inflight_tasks: Vec<InflightTask>,
}

/// What an `InflightTask` says.
pub struct Task {
    pub id: Seq<char>,
    pub status: Seq<char>,
    pub subject: Seq<char>,
    pub active_form: Option<Seq<char>>,
}

/// What a `CronListEntry` says.
pub struct Listed {
    pub id: Seq<char>,
    pub cron: Seq<char>,
    pub recurring: bool,
    pub prompt: Seq<char>,
    pub cadence_human: Option<Seq<char>>,
    pub tasks: Seq<Task>,
}

/// What a `PausedJob` says.
pub struct Paused {
    pub id_original: Seq<char>,
    pub cron: Seq<char>,
    pub cadence_human: Seq<char>,
    pub recurring: bool,
    pub prompt: Seq<char>,
    pub canary_added: bool,
    pub paused_at: Seq<char>,
    pub label: Seq<char>,
    pub tasks: Seq<Task>,
}

impl View for InflightTask {
    type V = Task;

    open spec fn view(&self) -> Task {
        Task {
            id: self.id@,
            status: self.status@,
            subject: self.subject@,
            active_form: text::opt_string(self.active_form),
        }
    }
}

/// What the tasks of a list say.
pub open spec fn tasks(v: Seq<InflightTask>) -> Seq<Task> {
    v.map_values(|t: InflightTask| t@)
}

impl View for CronListEntry {
    type V = Listed;

    open spec fn view(&self) -> Listed {
        Listed {
            id: self.id@,
            cron: self.cron@,
            recurring: self.recurring,
            prompt: self.prompt@,
            cadence_human: text::opt_string(self.cadence_human),
            tasks: tasks(self.inflight_tasks@),
        }
    }
}

impl View for PausedJob {
    type V = Paused;

    open spec fn view(&self) -> Paused {
        Paused {
            id_original: self.id_original@,
            cron: self.cron@,
            cadence_human: self.cadence_human@,
            recurring: self.recurring,
            prompt: self.prompt@,
            canary_added: self.canary_added,
            paused_at: self.paused_at@,
            label: self.label@,
            tasks: tasks(self.inflight_tasks@),
        }
    }
}

/// What the entries of a list say.
pub open spec fn listed(v: Seq<CronListEntry>) -> Seq<Listed> {
    v.map_values(|e: CronListEntry| e@)
}

/// What the jobs of a list say.
pub open spec fn jobs(v: Seq<PausedJob>) -> Seq<Paused> {
    v.map_values(|j: PausedJob| j@)
}

/// Whether a job recurs that does not say.
pub fn default_recurring() -> (r: bool)
    ensures
        r,
{
    true
}

// ---- pausing --------------------------------------------------------------

/// What a pause keeps of a job.
pub open spec fn paused_as(e: Listed, label: Option<Seq<char>>, now: Seq<char>) -> Paused {
    Paused {
        id_original: e.id,
        cron: e.cron,
        cadence_human: match e.cadence_human {
            Some(c) => c,
            None => "(unspecified)"@,
        },
        recurring: e.recurring,
        prompt: prompt::with_canary(e.prompt),
        canary_added: !prompt::canary_present(e.prompt),
        paused_at: now,
        label: match label {
            Some(l) => l,
            None => prompt::inferred_label(prompt::with_canary(e.prompt)),
        },
        tasks: e.tasks,
    }
}

/// What a pause keeps of a list of jobs.
pub open spec fn all_paused_as(
    v: Seq<Listed>,
    label: Option<Seq<char>>,
    now: Seq<char>,
) -> Seq<Paused> {
    v.map_values(|e: Listed| paused_as(e, label, now))
}

/// The line that the history gets for a paused job.
pub open spec fn pause_line(j: Paused, now: Seq<char>) -> Seq<char> {
    "{\"at\":"@ + json::quoted(now) + ",\"cron\":"@ + json::quoted(j.cron)
        + ",\"event\":\"paused\",\"id_original\":"@ + json::quoted(j.id_original) + ",\"label\":"@
        + json::quoted(j.label) + "}"@
}

/// The lines that the history gets for a pause.
pub open spec fn pause_lines(v: Seq<Paused>, now: Seq<char>) -> Seq<Seq<char>> {
    v.map_values(|j: Paused| pause_line(j, now))
}

/// The identifiers of jobs as JSON strings.
pub open spec fn id_texts(v: Seq<Paused>) -> Seq<Seq<char>> {
    v.map_values(|j: Paused| json::quoted(j.id_original))
}

/// What a pause leaves behind.
pub struct PausePlan {
    /// All jobs that are paused now.
    pub jobs: Vec<PausedJob>,
    pub history: Vec<String>,
    /// The line it prints: the jobs to take from the scheduler.
    pub report: String,
}

/// What a pause keeps of a job.
fn pause_job(e: CronListEntry, label: Option<&str>, now: &str) -> (r: PausedJob)
    ensures
        r@ == paused_as(e@, text::opt(label), now@),
{
    let (prompt, canary_added) = prompt::add_canary(e.prompt.as_str());
    let label = match label {
        Some(l) => String::from_str(l),
        None => prompt::infer_label(prompt.as_str()),
    };
    let cadence_human = match e.cadence_human {
        Some(c) => c,
        None => String::from_str("(unspecified)"),
    };
    PausedJob {
        id_original: e.id,
        cron: e.cron,
        cadence_human,
        recurring: e.recurring,
        prompt,
        canary_added,
        paused_at: String::from_str(now),
        label,
        inflight_tasks: e.inflight_tasks,
    }
}

/// The line that the history gets for a paused job.
fn show_pause(j: &PausedJob, now: &str) -> (r: String)
    ensures
        r@ == pause_line(j@, now@),
{
    let mut r = String::from_str("{\"at\":");
    r.append(json::quote(now).as_str());
    r.append(",\"cron\":");
    r.append(json::quote(j.cron.as_str()).as_str());
    r.append(",\"event\":\"paused\",\"id_original\":");
    r.append(json::quote(j.id_original.as_str()).as_str());
    r.append(",\"label\":");
    r.append(json::quote(j.label.as_str()).as_str());
    r.append("}");
    r
}

/// Pauses jobs beside those that are paused already; `None` where there is
/// nothing to pause.
pub fn pause(
    entries: Vec<CronListEntry>,
    prior: Vec<PausedJob>,
    label: Option<&str>,
    now: &str,
) -> (r: Option<PausePlan>)
    ensures
        r is None <==> entries@.len() == 0,
        r matches Some(p) ==> {
            &&& jobs(p.jobs@) == jobs(prior@) + all_paused_as(
                listed(entries@),
                text::opt(label),
                now@,
            )
            &&& text::texts(p.history@) == pause_lines(jobs(p.jobs@), now@)
            &&& p.report@ == json::array_of(id_texts(jobs(p.jobs@)))
        },
{
    if entries.len() == 0 {
        return None;
    }
    let ghost before = jobs(prior@);
    let ghost taken = listed(entries@);
    let ghost new = all_paused_as(taken, text::opt(label), now@);
    let mut all = prior;
    let mut rest = entries;
    let mut todo: Vec<CronListEntry> = Vec::new();
    while rest.len() > 0
        invariant
            listed(rest@) + listed(todo@).reverse() == taken,
        decreases rest@.len(),
    {
        let ghost was = rest@;
        let ghost done = todo@;
        match rest.pop() {
            Some(e) => {
                todo.push(e);
                proof {
                    assert(listed(was) =~= listed(rest@).push(e@));
                    assert(listed(todo@) =~= listed(done).push(e@));
                    assert(listed(rest@) + listed(todo@).reverse() =~= listed(was) + listed(
                        done,
                    ).reverse());
                }
            },
            None => {},
        }
    }
    assert(listed(todo@).reverse() =~= taken);
    assert(jobs(all@) =~= before + new.take(0));
    while todo.len() > 0
        invariant
            todo@.len() <= taken.len(),
            listed(todo@).reverse() == taken.skip(taken.len() - todo@.len()),
            new == all_paused_as(taken, text::opt(label), now@),
            jobs(all@) == before + new.take(taken.len() - todo@.len()),
        decreases todo@.len(),
    {
        let ghost was = todo@;
        let ghost k = taken.len() - was.len();
        match todo.pop() {
            Some(e) => {
                proof {
                    assert(listed(was).reverse()[0] == e@);
                    assert(taken[k] == taken.skip(k)[0]);
                    assert(taken[k] == e@);
                    assert(new[k] == paused_as(e@, text::opt(label), now@));
                    assert(listed(was) =~= listed(todo@).push(e@));
                    assert(listed(todo@).reverse() =~= listed(was).reverse().skip(1));
                    assert(taken.skip(k).skip(1) =~= taken.skip(k + 1));
                }
                let ghost kept = all@;
                all.push(pause_job(e, label, now));
                assert(jobs(all@) =~= jobs(kept).push(new[k]));
                assert(new.take(k + 1) =~= new.take(k).push(new[k]));
                assert(jobs(all@) =~= before + new.take(k + 1));
            },
            None => {},
        }
    }
    assert(new.take(taken.len() as int) =~= new);
    let mut history: Vec<String> = Vec::new();
    let mut ids: Vec<String> = Vec::new();
    let mut i: usize = 0;
    while i < all.len()
        invariant
            i <= all@.len(),
            text::texts(history@) == pause_lines(jobs(all@), now@).take(i as int),
            text::texts(ids@) == id_texts(jobs(all@)).take(i as int),
        decreases all@.len() - i,
    {
        let ghost h = history@;
        let ghost d = ids@;
        history.push(show_pause(&all[i], now));
        ids.push(json::quote(all[i].id_original.as_str()));
        proof {
            text::lemma_texts_push(h, history@.last());
            text::lemma_texts_push(d, ids@.last());
            assert(pause_lines(jobs(all@), now@)[i as int] == pause_line(all@[i as int]@, now@));
            assert(id_texts(jobs(all@))[i as int] == json::quoted(all@[i as int].id_original@));
            assert(text::texts(history@) =~= pause_lines(jobs(all@), now@).take(i + 1));
            assert(text::texts(ids@) =~= id_texts(jobs(all@)).take(i + 1));
        }
        i = i + 1;
    }
    assert(pause_lines(jobs(all@), now@).take(i as int) =~= pause_lines(jobs(all@), now@));
    assert(id_texts(jobs(all@)).take(i as int) =~= id_texts(jobs(all@)));
    let report = json::array(&ids);
    Some(PausePlan { jobs: all, history, report })
}

// ---- resuming -------------------------------------------------------------

/// What a resume hands back to the scheduler.
pub struct Resumed {
    pub cron: Seq<char>,
    pub prompt: Seq<char>,
    pub recurring: bool,
    pub label: Seq<char>,
    pub id_original: Seq<char>,
    pub tasks: Seq<Task>,
}

/// What a resume hands back of a job, where `cron` replaces its schedule if it
/// is there.
pub open spec fn resumed_as(j: Paused, cron: Option<Seq<char>>) -> Resumed {
    Resumed {
        cron: match cron {
            Some(c) => c,
            None => j.cron,
        },
        prompt: j.prompt,
        recurring: j.recurring,
        label: j.label,
        id_original: j.id_original,
        tasks: j.tasks,
    }
}

/// A task in JSON.
pub open spec fn task_text(t: Task) -> Seq<char> {
    "{\"activeForm\":"@ + json::quoted_or_null(t.active_form) + ",\"id\":"@ + json::quoted(t.id)
        + ",\"status\":"@ + json::quoted(t.status) + ",\"subject\":"@ + json::quoted(t.subject)
        + "}"@
}

/// The tasks of a list in JSON.
pub open spec fn task_texts(v: Seq<Task>) -> Seq<Seq<char>> {
    v.map_values(|t: Task| task_text(t))
}

/// A resumed job in JSON.
pub open spec fn resumed_text(r: Resumed) -> Seq<char> {
    "{\"cron\":"@ + json::quoted(r.cron) + ",\"id_original\":"@ + json::quoted(r.id_original)
        + ",\"inflight_tasks\":"@ + json::array_of(task_texts(r.tasks)) + ",\"label\":"@
        + json::quoted(r.label) + ",\"prompt\":"@ + json::quoted(r.prompt) + ",\"recurring\":"@
        + json::bool_of(r.recurring) + "}"@
}

/// The resumed jobs of a list in JSON.
pub open spec fn resumed_texts(v: Seq<Paused>, cron: Option<Seq<char>>) -> Seq<Seq<char>> {
    v.map_values(|j: Paused| resumed_text(resumed_as(j, cron)))
}

/// The line that the history gets for a resumed job.
pub open spec fn resume_line(
    j: Paused,
    cron: Option<Seq<char>>,
    asked: Option<Seq<char>>,
    now: Seq<char>,
) -> Seq<char> {
    "{\"at\":"@ + json::quoted(now) + ",\"cron\":"@ + json::quoted(resumed_as(j, cron).cron)
        + ",\"event\":\"resumed\",\"id_original\":"@ + json::quoted(j.id_original)
        + ",\"inflight_tasks_replayed\":"@ + text::decimal(j.tasks.len())
        + ",\"interval_override\":"@ + json::quoted_or_null(asked) + "}"@
}

/// The lines that the history gets for a resume.
pub open spec fn resume_lines(
    v: Seq<Paused>,
    cron: Option<Seq<char>>,
    asked: Option<Seq<char>>,
    now: Seq<char>,
) -> Seq<Seq<char>> {
    v.map_values(|j: Paused| resume_line(j, cron, asked, now))
}

/// What a resume leaves behind.
pub struct ResumePlan {
    pub history: Vec<String>,
    /// What it prints: the jobs to hand back to the scheduler, one on a line.
    pub report: String,
    /// Whether the paused jobs are used up.
    pub consumed: bool,
}

/// The schedule that an interval asks for.
pub open spec fn override_of(asked: Option<Seq<char>>) -> Result<
    Option<Seq<char>>,
    IntervalError,
> {
    match asked {
        None => Ok(None),
        Some(s) => match interval::cron_of(s) {
            Ok(c) => Ok(Some(c)),
            Err(e) => Err(e),
        },
    }
}

/// A task in JSON.
fn show_task(t: &InflightTask) -> (r: String)
    ensures
        r@ == task_text(t@),
{
    let mut r = String::from_str("{\"activeForm\":");
    match &t.active_form {
        Some(a) => r.append(json::quote(a.as_str()).as_str()),
        None => r.append("null"),
    }
    r.append(",\"id\":");
    r.append(json::quote(t.id.as_str()).as_str());
    r.append(",\"status\":");
    r.append(json::quote(t.status.as_str()).as_str());
    r.append(",\"subject\":");
    r.append(json::quote(t.subject.as_str()).as_str());
    r.append("}");
    r
}

/// The tasks of a list as a JSON array.
fn show_tasks(v: &Vec<InflightTask>) -> (r: String)
    ensures
        r@ == json::array_of(task_texts(tasks(v@))),
{
    let mut out: Vec<String> = Vec::new();
    let mut i: usize = 0;
    while i < v.len()
        invariant
            i <= v@.len(),
            text::texts(out@) == task_texts(tasks(v@)).take(i as int),
        decreases v@.len() - i,
    {
        let ghost was = out@;
        out.push(show_task(&v[i]));
        proof {
            text::lemma_texts_push(was, out@.last());
            assert(task_texts(tasks(v@))[i as int] == task_text(v@[i as int]@));
            assert(text::texts(out@) =~= task_texts(tasks(v@)).take(i + 1));
        }
        i = i + 1;
    }
    assert(task_texts(tasks(v@)).take(i as int) =~= task_texts(tasks(v@)));
    json::array(&out)
}

/// A resumed job in JSON.
fn show_resumed(j: &PausedJob, cron: Option<&str>) -> (r: String)
    ensures
        r@ == resumed_text(resumed_as(j@, text::opt(cron))),
{
    let schedule = match cron {
        Some(c) => c,
        None => j.cron.as_str(),
    };
    let mut r = String::from_str("{\"cron\":");
    r.append(json::quote(schedule).as_str());
    r.append(",\"id_original\":");
    r.append(json::quote(j.id_original.as_str()).as_str());
    r.append(",\"inflight_tasks\":");
    r.append(show_tasks(&j.inflight_tasks).as_str());
    r.append(",\"label\":");
    r.append(json::quote(j.label.as_str()).as_str());
    r.append(",\"prompt\":");
    r.append(json::quote(j.prompt.as_str()).as_str());
    r.append(",\"recurring\":");
    r.append(json::show_bool(j.recurring));
    r.append("}");
    r
}

/// The line that the history gets for a resumed job.
fn show_resume(j: &PausedJob, cron: Option<&str>, asked: Option<&str>, now: &str) -> (r: String)
    ensures
        r@ == resume_line(j@, text::opt(cron), text::opt(asked), now@),
{
    let schedule = match cron {
        Some(c) => c,
        None => j.cron.as_str(),
    };
    let mut r = String::from_str("{\"at\":");
    r.append(json::quote(now).as_str());
    r.append(",\"cron\":");
    r.append(json::quote(schedule).as_str());
    r.append(",\"event\":\"resumed\",\"id_original\":");
    r.append(json::quote(j.id_original.as_str()).as_str());
    r.append(",\"inflight_tasks_replayed\":");
    r.append(text::show_usize(j.inflight_tasks.len()).as_str());
    r.append(",\"interval_override\":");
    r.append(json::quote_or_null(asked).as_str());
    r.append("}");
    r
}

/// Resumes the paused jobs, all of them on the schedule of `asked` where that is
/// given, and prints them as JSON lines, one per job. With no job there is nothing
/// to do, nothing is refused, and an empty list is printed.
pub fn resume(paused: &Vec<PausedJob>, asked: Option<&str>, now: &str) -> (r: Result<
    ResumePlan,
    IntervalError,
>)
    requires
        paused@.len() > 0 ==> (asked matches Some(s) ==> s@.len() == 0 || s@.last() <= '\u{7f}'),
    ensures
        paused@.len() == 0 ==> (r matches Ok(p) && p.history@.len() == 0 && p.report@ == "[]"@
            && !p.consumed),
        paused@.len() > 0 ==> match (r, override_of(text::opt(asked))) {
            (Ok(p), Ok(cron)) => {
                &&& text::texts(p.history@) == resume_lines(
                    jobs(paused@),
                    cron,
                    text::opt(asked),
                    now@,
                )
                &&& p.report@ == text::joined(resumed_texts(jobs(paused@), cron), "\n"@)
                &&& p.consumed
            },
            (Err(e), Err(expected)) => e == expected,
            _ => false,
        },
{
    let mut history: Vec<String> = Vec::new();
    if paused.len() == 0 {
        return Ok(ResumePlan { history, report: String::from_str("[]"), consumed: false });
    }
    let chosen: Option<String> = match asked {
        Some(s) => match interval::interval_to_cron(s) {
            Ok(c) => Some(c),
            Err(e) => return Err(e),
        },
        None => None,
    };
    let cron: Option<&str> = match &chosen {
        Some(c) => Some(c.as_str()),
        None => None,
    };
    let ghost sched = text::opt(cron);
    let mut out: Vec<String> = Vec::new();
    let mut i: usize = 0;
    while i < paused.len()
        invariant
            i <= paused@.len(),
            sched == text::opt(cron),
            text::texts(history@) == resume_lines(jobs(paused@), sched, text::opt(asked), now@).take(
                i as int,
            ),
            text::texts(out@) == resumed_texts(jobs(paused@), sched).take(i as int),
        decreases paused@.len() - i,
    {
        let ghost h = history@;
        let ghost o = out@;
        history.push(show_resume(&paused[i], cron, asked, now));
        out.push(show_resumed(&paused[i], cron));
        proof {
            text::lemma_texts_push(h, history@.last());
            text::lemma_texts_push(o, out@.last());
            let j = paused@[i as int]@;
            let lines = resume_lines(jobs(paused@), sched, text::opt(asked), now@);
            let texts = resumed_texts(jobs(paused@), sched);
            assert(lines[i as int] == resume_line(j, sched, text::opt(asked), now@));
            assert(texts[i as int] == resumed_text(resumed_as(j, sched)));
            assert(text::texts(history@) =~= lines.take(i + 1));
            assert(text::texts(out@) =~= texts.take(i + 1));
        }
        i = i + 1;
    }
    proof {
        let lines = resume_lines(jobs(paused@), sched, text::opt(asked), now@);
        let texts = resumed_texts(jobs(paused@), sched);
        assert(lines.take(i as int) =~= lines);
        assert(texts.take(i as int) =~= texts);
    }
    let report = text::join(&out, "\n");
    Ok(ResumePlan { history, report, consumed: true })
}

// ---- the history ----------------------------------------------------------

/// The last `n` of a list, the newest first.
pub open spec fn newest_first(lines: Seq<Seq<char>>, n: int) -> Seq<Seq<char>> {
    if n >= lines.len() {
        lines.reverse()
    } else {
        lines.skip(lines.len() - n).reverse()
    }
}

/// The last `n` lines of the history, the newest first.
pub fn recent_lines(raw: &str, n: usize) -> (r: Vec<String>)
    ensures
        text::texts(r@) == newest_first(text::lines_of(raw@), n as int),
{
    let lines = text::lines(raw);
    let ghost all = text::lines_of(raw@);
    let keep: usize = if n < lines.len() {
        n
    } else {
        lines.len()
    };
    let mut out: Vec<String> = Vec::new();
    let mut i: usize = 0;
    while i < keep
        invariant
            i <= keep <= lines@.len(),
            keep == (if n < lines@.len() {
                n as int
            } else {
                lines@.len() as int
            }),
            text::texts(lines@) == all,
            all.len() == lines@.len(),
            text::texts(out@) == newest_first(all, n as int).take(i as int),
        decreases keep - i,
    {
        let ghost was = out@;
        let s = lines[lines.len() - 1 - i].clone();
        out.push(s);
        proof {
            text::lemma_texts_push(was, out@.last());
            assert(all[lines@.len() - 1 - i] == lines@[lines@.len() - 1 - i]@);
            assert(newest_first(all, n as int)[i as int] == all[all.len() - 1 - i]);
            assert(text::texts(out@) =~= newest_first(all, n as int).take(i + 1));
        }
        i = i + 1;
    }
    assert(newest_first(all, n as int).take(i as int) =~= newest_first(all, n as int));
    out
}

/// The last `n` of a list.
pub open spec fn tail_of(lines: Seq<Seq<char>>, n: int) -> Seq<Seq<char>> {
    newest_first(lines, n).reverse()
}

/// The last `n` lines of the history, the oldest of them first.
pub fn history_tail(raw: &str, n: usize) -> (r: Vec<String>)
    ensures
        text::texts(r@) == tail_of(text::lines_of(raw@), n as int),
{
    let newest = recent_lines(raw, n);
    let ghost all = text::texts(newest@);
    let mut out: Vec<String> = Vec::new();
    let mut i: usize = newest.len();
    while i > 0
        invariant
            i <= newest@.len(),
            all == text::texts(newest@),
            text::texts(out@) == all.reverse().take(all.len() - i),
        decreases i,
    {
        i = i - 1;
        let ghost was = out@;
        out.push(newest[i].clone());
        proof {
            text::lemma_texts_push(was, out@.last());
            assert(all.reverse()[all.len() - 1 - i] == all[i as int]);
            assert(text::texts(out@) =~= all.reverse().take(all.len() - i));
        }
    }
    assert(all.reverse().take(all.len() as int) =~= all.reverse());
    out
}

// ---- laws -----------------------------------------------------------------

/// Resuming a paused job gives the scheduler back what it had: the identifier,
/// the schedule, whether it recurs and its tasks. The prompt comes back with a
/// canary line at most added.
pub proof fn resume_gives_back_what_was_paused(
    e: Listed,
    label: Option<Seq<char>>,
    now: Seq<char>,
)
    ensures
        ({
            let r = resumed_as(paused_as(e, label, now), None);
            r.id_original == e.id && r.cron == e.cron && r.recurring == e.recurring && r.tasks
                == e.tasks && r.prompt == prompt::with_canary(e.prompt)
        }),
{
}

/// Pausing a job again that was paused and resumed keeps its prompt: canary
/// lines do not pile up.
pub proof fn pausing_again_keeps_the_prompt(
    e: Listed,
    again: Listed,
    label: Option<Seq<char>>,
    now: Seq<char>,
    later: Seq<char>,
)
    requires
        again.prompt == resumed_as(paused_as(e, label, now), None).prompt,
    ensures
        paused_as(again, label, later).prompt == again.prompt,
        !paused_as(again, label, later).canary_added,
{
    prompt::paused_prompt_has_canary(e.prompt);
}

proof fn lemma_task_is_one_line(t: Task)
    ensures
        !task_text(t).contains('\n'),
{
    reveal_strlit("{\"activeForm\":");
    reveal_strlit(",\"id\":");
    reveal_strlit(",\"status\":");
    reveal_strlit(",\"subject\":");
    reveal_strlit("null");
    reveal_strlit("}");
    match t.active_form {
        Some(a) => {
            json::quoted_is_one_line(a);
        },
        None => {},
    }
    json::quoted_is_one_line(t.id);
    json::quoted_is_one_line(t.status);
    json::quoted_is_one_line(t.subject);
    let a = "{\"activeForm\":"@;
    let b = a + json::quoted_or_null(t.active_form);
    let c = b + ",\"id\":"@;
    let d = c + json::quoted(t.id);
    let e = d + ",\"status\":"@;
    let f = e + json::quoted(t.status);
    let g = f + ",\"subject\":"@;
    let h = g + json::quoted(t.subject);
    text::lemma_lacks(a, json::quoted_or_null(t.active_form), '\n');
    text::lemma_lacks(b, ",\"id\":"@, '\n');
    text::lemma_lacks(c, json::quoted(t.id), '\n');
    text::lemma_lacks(d, ",\"status\":"@, '\n');
    text::lemma_lacks(e, json::quoted(t.status), '\n');
    text::lemma_lacks(f, ",\"subject\":"@, '\n');
    text::lemma_lacks(g, json::quoted(t.subject), '\n');
    text::lemma_lacks(h, "}"@, '\n');
}

proof fn lemma_tasks_are_one_line(v: Seq<Task>)
    ensures
        !json::array_of(task_texts(v)).contains('\n'),
{
    reveal_strlit("[");
    reveal_strlit("]");
    reveal_strlit(",");
    let all = task_texts(v);
    assert forall|i: int| 0 <= i < all.len() implies !(#[trigger] all[i]).contains('\n') by {
        lemma_task_is_one_line(v[i]);
    }
    text::lemma_joined_lacks(all, ","@, '\n');
    text::lemma_lacks("["@, text::joined(all, ","@), '\n');
    text::lemma_lacks("["@ + text::joined(all, ","@), "]"@, '\n');
}

proof fn lemma_resumed_is_one_line(r: Resumed)
    ensures
        !resumed_text(r).contains('\n'),
{
    reveal_strlit("{\"cron\":");
    reveal_strlit(",\"id_original\":");
    reveal_strlit(",\"inflight_tasks\":");
    reveal_strlit(",\"label\":");
    reveal_strlit(",\"prompt\":");
    reveal_strlit(",\"recurring\":");
    reveal_strlit("true");
    reveal_strlit("false");
    reveal_strlit("}");
    json::quoted_is_one_line(r.cron);
    json::quoted_is_one_line(r.id_original);
    json::quoted_is_one_line(r.label);
    json::quoted_is_one_line(r.prompt);
    lemma_tasks_are_one_line(r.tasks);
    let tasks = json::array_of(task_texts(r.tasks));
    let a = "{\"cron\":"@;
    let b = a + json::quoted(r.cron);
    let c = b + ",\"id_original\":"@;
    let d = c + json::quoted(r.id_original);
    let e = d + ",\"inflight_tasks\":"@;
    let f = e + tasks;
    let g = f + ",\"label\":"@;
    let h = g + json::quoted(r.label);
    let i = h + ",\"prompt\":"@;
    let j = i + json::quoted(r.prompt);
    let k = j + ",\"recurring\":"@;
    let l = k + json::bool_of(r.recurring);
    text::lemma_lacks(a, json::quoted(r.cron), '\n');
    text::lemma_lacks(b, ",\"id_original\":"@, '\n');
    text::lemma_lacks(c, json::quoted(r.id_original), '\n');
    text::lemma_lacks(d, ",\"inflight_tasks\":"@, '\n');
    text::lemma_lacks(e, tasks, '\n');
    text::lemma_lacks(f, ",\"label\":"@, '\n');
    text::lemma_lacks(g, json::quoted(r.label), '\n');
    text::lemma_lacks(h, ",\"prompt\":"@, '\n');
    text::lemma_lacks(i, json::quoted(r.prompt), '\n');
    text::lemma_lacks(j, ",\"recurring\":"@, '\n');
    text::lemma_lacks(k, json::bool_of(r.recurring), '\n');
    text::lemma_lacks(l, "}"@, '\n');
}

/// What a resume prints has one line for each job, whatever the prompts and the
/// other texts hold.
pub proof fn resumed_jobs_have_a_line_each(v: Seq<Paused>, cron: Option<Seq<char>>)
    requires
        v.len() > 0,
    ensures
        text::pieces(text::joined(resumed_texts(v, cron), "\n"@), '\n') == resumed_texts(v, cron),
        resumed_texts(v, cron).len() == v.len(),
{
    reveal_strlit("\n");
    let all = resumed_texts(v, cron);
    assert forall|i: int| 0 <= i < all.len() implies !(#[trigger] all[i]).contains('\n') by {
        lemma_resumed_is_one_line(resumed_as(v[i], cron));
    }
    text::pieces_undo_join(all, '\n');
    assert("\n"@ =~= seq!['\n']);
}

/// An interval is put in the place of every schedule.
pub proof fn interval_applies_to_all(v: Seq<Paused>, cron: Seq<char>, i: int)
    requires
        0 <= i < v.len(),
    ensures
        resumed_texts(v, Some(cron))[i] == resumed_text((Resumed { cron, ..resumed_as(v[i], None) })),
{
}

/// A paused job says when it was paused, and has the label that was given or one
/// from its first sentence; it is on file with what the scheduler knew of it.
pub proof fn paused_jobs_are_filed(e: Listed, label: Option<Seq<char>>, now: Seq<char>)
    ensures
        ({
            let j = paused_as(e, label, now);
            &&& j.id_original == e.id && j.cron == e.cron && j.recurring == e.recurring
            &&& j.tasks == e.tasks && j.paused_at == now
            &&& text::begins(j.prompt, e.prompt)
            &&& j.canary_added <==> j.prompt != e.prompt
            &&& label matches Some(l) ==> j.label == l
            &&& label is None ==> j.label == prompt::inferred_label(j.prompt)
            &&& e.cadence_human matches Some(c) ==> j.cadence_human == c
            &&& e.cadence_human is None ==> j.cadence_human == "(unspecified)"@
        }),
{
    reveal_strlit(
        "\n\nNote: if you canceled or stopped this loop, you should NOT be seeing this message.",
    );
    let p = prompt::with_canary(e.prompt);
    assert(p.subrange(0, e.prompt.len() as int) =~= e.prompt);
    prompt::canary_is_added_where_missing(e.prompt);
    if prompt::canary_present(e.prompt) {
        assert(p == e.prompt);
    } else {
        assert(p.len() > e.prompt.len());
    }
}

/// A job that is resumed on a schedule of its own has what was paused, but for
/// the schedule.
pub proof fn resuming_changes_the_schedule_only(j: Paused, cron: Seq<char>)
    ensures
        resumed_as(j, None).cron == j.cron,
        resumed_as(j, Some(cron)).cron == cron,
        ({
            let r = resumed_as(j, Some(cron));
            r.prompt == j.prompt && r.recurring == j.recurring && r.label == j.label
                && r.id_original == j.id_original && r.tasks == j.tasks
        }),
{
}

/// Resuming every so many minutes puts the jobs on a schedule with that step.
pub proof fn resumed_jobs_run_every_so_many_minutes(j: Paused, n: u64)
    requires
        1 <= n <= 59,
    ensures
        override_of(Some(text::decimal(n as nat) + "m"@)) matches Ok(cron) && resumed_as(
            j,
            cron,
        ).cron == "*/"@ + text::decimal(n as nat) + " * * * *"@,
{
    interval::minutes_are_the_step(n);
}

/// The history is shown from its last line back, as many lines as are asked for
/// and are there; its tail is the same lines in the order they were written.
pub proof fn history_ends_with_the_newest(lines: Seq<Seq<char>>, n: int)
    requires
        n >= 0,
    ensures
        newest_first(lines, n).len() == if n < lines.len() {
            n
        } else {
            lines.len() as int
        },
        forall|i: int|
            0 <= i < newest_first(lines, n).len() ==> #[trigger] newest_first(lines, n)[i]
                == lines[lines.len() - 1 - i],
        tail_of(lines, n) == lines.skip(
            if n < lines.len() {
                lines.len() - n
            } else {
                0
            },
        ),
{
    assert(tail_of(lines, n) =~= lines.skip(
        if n < lines.len() {
            lines.len() - n
        } else {
            0
        },
    ));
}

/// The history has a line for each job that is paused or resumed, with its
/// identifier; and what is handed back to the scheduler is every identifier.
#[verifier::rlimit(80)]
#[verifier::spinoff_prover]
pub proof fn history_names_every_job(
    v: Seq<Paused>,
    cron: Option<Seq<char>>,
    asked: Option<Seq<char>>,
    now: Seq<char>,
    i: int,
)
    requires
        0 <= i < v.len(),
    ensures
        pause_lines(v, now).len() == v.len(),
        resume_lines(v, cron, asked, now).len() == v.len(),
        id_texts(v).len() == v.len(),
        id_texts(v)[i] == json::quoted(v[i].id_original),
        pause_lines(v, now)[i] == "{\"at\":"@ + json::quoted(now) + ",\"cron\":"@ + json::quoted(
            v[i].cron,
        ) + ",\"event\":\"paused\",\"id_original\":"@ + json::quoted(v[i].id_original)
            + ",\"label\":"@ + json::quoted(v[i].label) + "}"@,
        text::has_text(
            resume_lines(v, cron, asked, now)[i],
            ",\"event\":\"resumed\",\"id_original\":"@ + json::quoted(v[i].id_original)
                + ",\"inflight_tasks_replayed\":"@ + text::decimal(v[i].tasks.len()),
        ),
{
    let line = resume_line(v[i], cron, asked, now);
    assert(resume_lines(v, cron, asked, now)[i] == line);
    lemma_resumed_part(
        "{\"at\":"@ + json::quoted(now) + ",\"cron\":"@ + json::quoted(
            resumed_as(v[i], cron).cron,
        ),
        ",\"event\":\"resumed\",\"id_original\":"@,
        json::quoted(v[i].id_original),
        ",\"inflight_tasks_replayed\":"@,
        text::decimal(v[i].tasks.len()),
        ",\"interval_override\":"@,
        json::quoted_or_null(asked),
        "}"@,
    );
}

proof fn lemma_resumed_part(
    a: Seq<char>,
    b: Seq<char>,
    c: Seq<char>,
    d: Seq<char>,
    e: Seq<char>,
    f: Seq<char>,
    g: Seq<char>,
    h: Seq<char>,
)
    ensures
        text::has_text(a + b + c + d + e + f + g + h, b + c + d + e),
{
    text::lemma_has_part(a, b + c + d + e, f + g + h);
    assert(a + b + c + d + e + f + g + h =~= a + (b + c + d + e) + (f + g + h));
}

/// Pausing keeps what was paused before and adds each job of the list, in order.
pub proof fn pausing_adds_to_what_is_paused(
    v: Seq<Listed>,
    label: Option<Seq<char>>,
    now: Seq<char>,
    i: int,
)
    requires
        0 <= i < v.len(),
    ensures
        all_paused_as(v, label, now).len() == v.len(),
        all_paused_as(v, label, now)[i].id_original == v[i].id,
        all_paused_as(v, label, now)[i].cron == v[i].cron,
        all_paused_as(v, label, now)[i].tasks == v[i].tasks,
{
}

} // verus!
