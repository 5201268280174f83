//! What is done about an incident, one thing after the other: loops are stopped
//! and the conversation is kept before anyone is told, mail goes out only when
//! none did lately, and the marker that ends it all comes last.

use vstd::prelude::*;

use crate::loops::sentinel;
use crate::loops::sentinel::ApiErrorHit;
use crate::loops::sentinel::Hit;
use crate::loops::sentinel::SentinelConfig;
use crate::text;

verus! {

/// What was done about an incident so far.
pub struct Progress {
    /// The loops that were stopped.
    pub stopped: Option<Vec<String>>,
    /// Where the conversation is kept.
    pub backup: Option<String>,
    /// Whether a notification was shown.
    pub desktop: Option<bool>,
    /// Whether mail went out lately.
    pub in_cooldown: Option<bool>,
    /// Whether mail was sent.
    pub emailed: Option<bool>,
    /// Whether it was put on record when.
    pub noted: bool,
    /// Whether the marker of the incident is in place.
    pub marked: bool,
}

/// What a `Progress` says.
#[verifier::ext_equal]
pub struct Course {
    pub stopped: Option<Seq<Seq<char>>>,
    pub backup: Option<Seq<char>>,
    pub desktop: Option<bool>,
    pub in_cooldown: Option<bool>,
    pub emailed: Option<bool>,
    pub noted: bool,
    pub marked: bool,
}

impl View for Progress {
    type V = Course;

    open spec fn view(&self) -> Course {
        Course {
            stopped: match self.stopped {
                Some(v) => Some(text::texts(v@)),
                None => None,
            },
            backup: text::opt_string(self.backup),
            desktop: self.desktop,
            in_cooldown: self.in_cooldown,
            emailed: self.emailed,
            noted: self.noted,
            marked: self.marked,
        }
    }
}

/// What is to be done next.
pub enum Deed {
    StopLoops,
    BackUp,
    /// Run a program with these arguments.
    Notify(String, Vec<String>),
    /// Look when mail went out last.
    ReadLastMail,
    /// Send mail to this address.
    Mail(String),
    NoteMail,
    Mark,
    /// Print this line and end.
    Report(String),
}

/// What a `Deed` says.
pub enum Duty {
    StopLoops,
    BackUp,
    Notify(Seq<char>, Seq<Seq<char>>),
    ReadLastMail,
    Mail(Seq<char>),
    NoteMail,
    Mark,
    Report(Seq<char>),
}

impl View for Deed {
    type V = Duty;

    open spec fn view(&self) -> Duty {
        match *self {
            Deed::StopLoops => Duty::StopLoops,
            Deed::BackUp => Duty::BackUp,
            Deed::Notify(program, args) => Duty::Notify(program@, text::texts(args@)),
            Deed::ReadLastMail => Duty::ReadLastMail,
            Deed::Mail(to) => Duty::Mail(to@),
            Deed::NoteMail => Duty::NoteMail,
            Deed::Mark => Duty::Mark,
            Deed::Report(s) => Duty::Report(s@),
        }
    }
}

/// What came of a deed.
pub enum Outcome {
    Stopped(Vec<String>),
    BackedUp(String),
    Notified(bool),
    InCooldown(bool),
    Mailed(bool),
    Noted,
    Marked,
}

/// The beginning.
pub open spec fn untouched() -> Course {
    Course {
        stopped: None,
        backup: None,
        desktop: None,
        in_cooldown: None,
        emailed: None,
        noted: false,
        marked: false,
    }
}

/// The beginning.
pub fn begin() -> (r: Progress)
    ensures
        r@ == untouched(),
{
    Progress {
        stopped: None,
        backup: None,
        desktop: None,
        in_cooldown: None,
        emailed: None,
        noted: false,
        marked: false,
    }
}

/// What was done once a deed had that outcome.
pub open spec fn advanced(c: Course, o: Outcome) -> Course {
    match o {
        Outcome::Stopped(v) => Course { stopped: Some(text::texts(v@)), ..c },
        Outcome::BackedUp(s) => Course { backup: Some(s@), ..c },
        Outcome::Notified(b) => Course { desktop: Some(b), ..c },
        Outcome::InCooldown(b) => Course { in_cooldown: Some(b), ..c },
        Outcome::Mailed(b) => Course { emailed: Some(b), ..c },
        Outcome::Noted => Course { noted: true, ..c },
        Outcome::Marked => Course { marked: true, ..c },
    }
}

/// What was done once a deed had that outcome.
pub fn advance(p: Progress, o: Outcome) -> (r: Progress)
    ensures
        r@ == advanced(p@, o),
{
    let mut r = p;
    match o {
        Outcome::Stopped(v) => {
            r.stopped = Some(v);
        },
        Outcome::BackedUp(s) => {
            r.backup = Some(s);
        },
        Outcome::Notified(b) => {
            r.desktop = Some(b);
        },
        Outcome::InCooldown(b) => {
            r.in_cooldown = Some(b);
        },
        Outcome::Mailed(b) => {
            r.emailed = Some(b);
        },
        Outcome::Noted => {
            r.noted = true;
        },
        Outcome::Marked => {
            r.marked = true;
        },
    }
    r
}

/// The command that tells the user, where they are to be told and the system has
/// one.
pub open spec fn notice(
    h: Hit,
    desktop: bool,
    os: Seq<char>,
    stopped: nat,
    backup: Seq<char>,
) -> Option<(Seq<char>, Seq<Seq<char>>)> {
    if desktop {
        sentinel::notice_command_text(
            os,
            sentinel::notice_title_text(h.is_policy_block),
            sentinel::notice_body_text(h, stopped, backup),
        )
    } else {
        None
    }
}

/// The address that mail goes to, where it goes out.
pub open spec fn addressee(
    email: Option<Seq<char>>,
    enabled: bool,
    in_cooldown: bool,
) -> Option<Seq<char>> {
    if enabled && !in_cooldown {
        email
    } else {
        None
    }
}

/// What is to be done next, by what was done so far.
pub open spec fn duty(h: Hit, cfg: SentinelConfig, os: Seq<char>, c: Course) -> Duty {
    match (c.stopped, c.backup) {
        (None, _) => Duty::StopLoops,
        (Some(_), None) => Duty::BackUp,
        (Some(stopped), Some(backup)) => {
            let command = notice(h, cfg.desktop_enabled, os, stopped.len(), backup);
            let to = addressee(
                text::opt_string(cfg.email),
                cfg.email_enabled,
                c.in_cooldown != Some(false),
            );
            if c.desktop is None && command is Some {
                Duty::Notify((command->0).0, (command->0).1)
            } else if c.in_cooldown is None {
                Duty::ReadLastMail
            } else if c.emailed is None && to is Some {
                Duty::Mail(to->0)
            } else if c.emailed == Some(true) && !c.noted {
                Duty::NoteMail
            } else if !c.marked {
                Duty::Mark
            } else {
                Duty::Report(
                    sentinel::action_text(
                        h,
                        stopped,
                        backup,
                        c.desktop == Some(true),
                        c.emailed == Some(true),
                        c.in_cooldown == Some(true),
                    ),
                )
            }
        },
    }
}

/// What is to be done next, by what was done so far.
pub fn next_deed(h: &ApiErrorHit, cfg: &SentinelConfig, os: &str, p: &Progress) -> (r: Deed)
    ensures
        r@ == duty(h@, *cfg, os@, p@),
{
    let stopped = match &p.stopped {
        Some(v) => v,
        None => return Deed::StopLoops,
    };
    let backup = match &p.backup {
        Some(s) => s.as_str(),
        None => return Deed::BackUp,
    };
    if p.desktop.is_none() && cfg.desktop_enabled {
        let title = sentinel::notice_title(h.is_policy_block);
        let body = sentinel::notice_body(h, stopped.len(), backup);
        match sentinel::notice_command(os, title.as_str(), body.as_str()) {
            Some((program, args)) => {
                return Deed::Notify(program, args);
            },
            None => {},
        }
    }
    let in_cooldown = match p.in_cooldown {
        Some(b) => b,
        None => return Deed::ReadLastMail,
    };
    if p.emailed.is_none() {
        match sentinel::mail_recipient(cfg, in_cooldown) {
            Some(to) => {
                return Deed::Mail(to.clone());
            },
            None => {},
        }
    }
    let emailed = match p.emailed {
        Some(b) => b,
        None => false,
    };
    if emailed && !p.noted {
        Deed::NoteMail
    } else if !p.marked {
        Deed::Mark
    } else {
        let desktop = match p.desktop {
            Some(b) => b,
            None => false,
        };
        Deed::Report(
            sentinel::action_report(h, stopped, backup, desktop, emailed, in_cooldown),
        )
    }
}

// ---- laws -----------------------------------------------------------------

/// Whether an outcome is one that a deed can have.
pub open spec fn answers(o: Outcome, d: Duty) -> bool {
    match d {
        Duty::StopLoops => o is Stopped,
        Duty::BackUp => o is BackedUp,
        Duty::Notify(_, _) => o is Notified,
        Duty::ReadLastMail => o is InCooldown,
        Duty::Mail(_) => o is Mailed,
        Duty::NoteMail => o is Noted,
        Duty::Mark => o is Marked,
        Duty::Report(_) => false,
    }
}

/// The things that were not done yet.
pub open spec fn undone(c: Course) -> nat {
    (if c.stopped is None {
        1nat
    } else {
        0
    }) + (if c.backup is None {
        1nat
    } else {
        0
    }) + (if c.desktop is None {
        1nat
    } else {
        0
    }) + (if c.in_cooldown is None {
        1nat
    } else {
        0
    }) + (if c.emailed is None {
        1nat
    } else {
        0
    }) + (if c.noted {
        0nat
    } else {
        1
    }) + (if c.marked {
        0nat
    } else {
        1
    })
}

/// An incident comes to an end: nothing is done twice, so after seven deeds at
/// most there is the report.
pub proof fn incident_ends(h: Hit, cfg: SentinelConfig, os: Seq<char>, c: Course, o: Outcome)
    requires
        answers(o, duty(h, cfg, os, c)),
    ensures
        undone(advanced(c, o)) < undone(c),
        undone(untouched()) == 7,
        undone(c) > 0,
{
}

/// Whatever the settings are, loops are stopped and the conversation is kept
/// before the user is told, before the marker is set and before the report.
pub proof fn loops_are_stopped_first(h: Hit, cfg: SentinelConfig, os: Seq<char>, c: Course)
    requires
        !(duty(h, cfg, os, c) is StopLoops),
        !(duty(h, cfg, os, c) is BackUp),
    ensures
        c.stopped is Some,
        c.backup is Some,
{
}

/// No mail goes out where it is switched off, where nobody is to get it, or where
/// some went out lately.
pub proof fn mail_does_not_pile_up(h: Hit, cfg: SentinelConfig, os: Seq<char>, c: Course)
    requires
        duty(h, cfg, os, c) is Mail,
    ensures
        cfg.email_enabled,
        text::opt_string(cfg.email) == Some(duty(h, cfg, os, c)->Mail_0),
        c.in_cooldown == Some(false),
        c.emailed is None,
{
}

/// The report comes when everything is done: the marker is in place, and where
/// mail was sent it is on record when.
pub proof fn report_comes_last(h: Hit, cfg: SentinelConfig, os: Seq<char>, c: Course)
    requires
        duty(h, cfg, os, c) is Report,
    ensures
        c.stopped is Some,
        c.backup is Some,
        c.in_cooldown is Some,
        c.marked,
        c.emailed == Some(true) ==> c.noted,
{
}

/// The user is told in every way that is switched on: by the report the desktop
/// was notified, if the system has a command for it, and mail was sent or tried,
/// unless some went out lately.
pub proof fn user_is_told(h: Hit, cfg: SentinelConfig, os: Seq<char>, c: Course)
    requires
        duty(h, cfg, os, c) is Mark || duty(h, cfg, os, c) is Report,
    ensures
        cfg.email_enabled && cfg.email is Some && c.in_cooldown == Some(false) ==> c.emailed is Some,
        cfg.desktop_enabled && sentinel::notice_command_text(
            os,
            sentinel::notice_title_text(h.is_policy_block),
            sentinel::notice_body_text(h, c.stopped->0.len(), c.backup->0),
        ) is Some ==> c.desktop is Some,
{
}

/// Where the desktop is switched off nothing is shown there.
pub proof fn quiet_desktops_stay_quiet(h: Hit, cfg: SentinelConfig, os: Seq<char>, c: Course)
    requires
        !cfg.desktop_enabled,
    ensures
        !(duty(h, cfg, os, c) is Notify),
{
}

/// What came of a deed is kept, and nothing else changes.
pub proof fn outcomes_are_kept(c: Course, o: Outcome)
    ensures
        ({
            let r = advanced(c, o);
            &&& o matches Outcome::Stopped(v) ==> r.stopped == Some(text::texts(v@))
            &&& o matches Outcome::BackedUp(s) ==> r.backup == Some(s@)
            &&& o matches Outcome::Notified(b) ==> r.desktop == Some(b)
            &&& o matches Outcome::InCooldown(b) ==> r.in_cooldown == Some(b)
            &&& o matches Outcome::Mailed(b) ==> r.emailed == Some(b)
            &&& o is Noted ==> r.noted
            &&& o is Marked ==> r.marked
            &&& !(o is Stopped) ==> r.stopped == c.stopped
            &&& !(o is BackedUp) ==> r.backup == c.backup
            &&& !(o is Notified) ==> r.desktop == c.desktop
            &&& !(o is InCooldown) ==> r.in_cooldown == c.in_cooldown
            &&& !(o is Mailed) ==> r.emailed == c.emailed
            &&& !(o is Noted) ==> r.noted == c.noted
            &&& !(o is Marked) ==> r.marked == c.marked
        }),
{
}

} // verus!
