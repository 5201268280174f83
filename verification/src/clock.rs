//! Points in time and the whole units of time between them.

use vstd::prelude::*;

use crate::text;

verus! {

/// The first and the last second that a point in time can lie in: the bounds
/// of the calendar that dates are read and written with.
pub const FIRST_SECOND: i64 = -8_334_601_228_800;

pub const LAST_SECOND: i64 = 8_210_266_876_799;

/// A point in time: the seconds since 1970 in UTC, leap seconds not counted,
/// and the nanoseconds since that second began. During a leap second there are
/// more than a second's worth of them.
#[derive(Clone, Copy, Debug, PartialEq, Eq, Structural)]
pub struct Moment {
    pub secs: i64,
    pub nanos: u32,
}

impl Moment {
    /// Whether the calendar holds this point in time.
    pub open spec fn wf(self) -> bool {
        FIRST_SECOND <= self.secs <= LAST_SECOND && self.nanos < 2_000_000_000
    }

    /// The second of its day.
    pub open spec fn second_of_day(self) -> int {
        self.secs as int % 86_400
    }

    /// Whether it lies in a leap second.
    pub open spec fn in_leap_second(self) -> bool {
        self.nanos >= 1_000_000_000
    }
}

/// The nanoseconds from `earlier` to `later`. A leap second that lies between
/// the two times of day counts as one more second.
pub open spec fn nanos_between(later: Moment, earlier: Moment) -> int {
    let leap: int = if later.second_of_day() > earlier.second_of_day()
        && earlier.in_leap_second() {
        1
    } else if later.second_of_day() < earlier.second_of_day() && later.in_leap_second() {
        -1
    } else {
        0
    };
    (later.secs - earlier.secs + leap) * 1_000_000_000 + (later.nanos - earlier.nanos)
}

/// `n / d` without its fraction.
pub open spec fn toward_zero(n: int, d: int) -> int {
    if n < 0 {
        -((-n) / d)
    } else {
        n / d
    }
}

/// The whole seconds from `earlier` to `later`, negative where `later` is the
/// earlier one.
pub open spec fn seconds_between(later: Moment, earlier: Moment) -> int {
    toward_zero(nanos_between(later, earlier), 1_000_000_000)
}

/// The whole minutes from `earlier` to `later`.
pub open spec fn minutes_between(later: Moment, earlier: Moment) -> int {
    toward_zero(seconds_between(later, earlier), 60)
}

/// The whole days from `earlier` to `later`.
pub open spec fn days_between(later: Moment, earlier: Moment) -> int {
    toward_zero(seconds_between(later, earlier), 86_400)
}

/// `n / d` without its fraction.
fn quotient(n: i64, d: i64) -> (r: i64)
    requires
        0 < d,
        n > i64::MIN,
    ensures
        r == toward_zero(n as int, d as int),
{
    if n < 0 {
        -((-n) / d)
    } else {
        n / d
    }
}

/// The whole seconds from `earlier` to `later`.
pub fn whole_seconds(later: Moment, earlier: Moment) -> (r: i64)
    requires
        later.wf(),
        earlier.wf(),
    ensures
        r == seconds_between(later, earlier),
        -20_000_000_000_000 < r < 20_000_000_000_000,
{
    let day: i64 = 86_400;
    let shift: i64 = 96_466 * day * 1_000;
    assert(shift % 86_400 == 0);
    let a: i64 = (later.secs + shift) % day;
    let b: i64 = (earlier.secs + shift) % day;
    let leap: i64 = if a > b && earlier.nanos >= 1_000_000_000 {
        1
    } else if a < b && later.nanos >= 1_000_000_000 {
        -1
    } else {
        0
    };
    let secs: i128 = (later.secs - earlier.secs + leap) as i128;
    let n: i128 = secs * 1_000_000_000 + (later.nanos as i128 - earlier.nanos as i128);
    assert(n == nanos_between(later, earlier));
    if n < 0 {
        (-((-n) / 1_000_000_000)) as i64
    } else {
        (n / 1_000_000_000) as i64
    }
}

/// The whole minutes from `earlier` to `later`.
pub fn whole_minutes(later: Moment, earlier: Moment) -> (r: i64)
    requires
        later.wf(),
        earlier.wf(),
    ensures
        r == minutes_between(later, earlier),
{
    quotient(whole_seconds(later, earlier), 60)
}

/// The whole days from `earlier` to `later`.
pub fn whole_days(later: Moment, earlier: Moment) -> (r: i64)
    requires
        later.wf(),
        earlier.wf(),
    ensures
        r == days_between(later, earlier),
{
    quotient(whole_seconds(later, earlier), 86_400)
}

/// The point in time `secs` seconds after 1970 began, where the calendar holds
/// it.
pub fn moment_at(secs: i64) -> (r: Option<Moment>)
    ensures
        r == (if FIRST_SECOND <= secs <= LAST_SECOND {
            Some(Moment { secs, nanos: 0 })
        } else {
            None
        }),
{
    if FIRST_SECOND <= secs && secs <= LAST_SECOND {
        Some(Moment { secs, nanos: 0 })
    } else {
        None
    }
}

/// The point in time that an RFC 3339 text stands for; `None` where the text is
/// no such date and time.
pub uninterp spec fn rfc3339_moment(s: Seq<char>) -> Option<Moment>;

/// `chrono::DateTime::parse_from_rfc3339`, with the point in time taken as its
/// `timestamp` and `timestamp_subsec_nanos`. The text alone decides the result.
/// A year has four digits there, so the result lies within the calendar, and a
/// fraction of a second is below two seconds even in a leap second. Which texts
/// are dates is left unsaid.
#[verifier::external_body]
pub(crate) fn parse_rfc3339(s: &str) -> (r: Option<Moment>)
    ensures
        r == rfc3339_moment(s@),
        r matches Some(m) ==> m.wf(),
{
    let t = chrono::DateTime::parse_from_rfc3339(s).ok()?;
    Some(Moment { secs: t.timestamp(), nanos: t.timestamp_subsec_nanos() })
}

// ---- months ---------------------------------------------------------------

/// Whether a year has a day more.
pub open spec fn leap_year(y: int) -> bool {
    y % 4 == 0 && (y % 100 != 0 || y % 400 == 0)
}

/// The days from the beginning of the year 0 to that of a year.
pub open spec fn days_before_year(y: int) -> int {
    365 * y + (y + 3) / 4 - (y + 99) / 100 + (y + 399) / 400
}

/// The days of a month.
pub open spec fn days_in_month(y: int, m: int) -> int {
    if m == 2 {
        if leap_year(y) {
            29
        } else {
            28
        }
    } else if m == 4 || m == 6 || m == 9 || m == 11 {
        30
    } else {
        31
    }
}

/// The days of the months of a year before one.
pub open spec fn days_before_month(y: int, m: int) -> int
    decreases m,
{
    if m <= 1 {
        0
    } else {
        days_before_month(y, m - 1) + days_in_month(y, m - 1)
    }
}

/// The first day of a month, in days since 1970 began.
pub open spec fn first_day(y: int, m: int) -> int {
    days_before_year(y) - days_before_year(1970) + days_before_month(y, m)
}

/// Whether a second lies in a month.
pub open spec fn lies_in_month(secs: int, y: int, m: int) -> bool {
    1 <= m <= 12 && first_day(y, m) * 86_400 <= secs < (first_day(y, m) + days_in_month(y, m))
        * 86_400
}

/// A number with zeros before it, so that it has at least `width` digits.
pub open spec fn zero_filled(n: nat, width: nat) -> Seq<char> {
    let digits = text::decimal(n);
    if digits.len() < width {
        Seq::new((width - digits.len()) as nat, |i: int| '0') + digits
    } else {
        digits
    }
}

/// A year: four digits, or more and a sign where four are not enough.
pub open spec fn year_text(y: int) -> Seq<char> {
    if y < 0 {
        "-"@ + zero_filled((-y) as nat, 4)
    } else if y > 9_999 {
        "+"@ + zero_filled(y as nat, 4)
    } else {
        zero_filled(y as nat, 4)
    }
}

/// A year and month, as in `202608`.
pub open spec fn month_text(y: int, m: int) -> Seq<char> {
    year_text(y) + zero_filled(m as nat, 2)
}

/// The month that a second lies in.
pub open spec fn month_of(secs: int) -> (int, int) {
    choose|p: (int, int)| lies_in_month(secs, #[trigger] p.0, p.1)
}

/// Whether a text names the month that a second lies in.
pub open spec fn names_month(s: Seq<char>, secs: int) -> bool {
    exists|y: int, m: int| #[trigger] lies_in_month(secs, y, m) && s == month_text(y, m)
}

/// `chrono::DateTime::from_timestamp` and the format `%Y%m` of its result: the
/// year and month, in the Gregorian calendar and UTC, that a second lies in.
#[verifier::external_body]
fn format_month(secs: i64) -> (r: String)
    requires
        FIRST_SECOND <= secs <= LAST_SECOND,
    ensures
        names_month(r@, secs as int),
{
    chrono::DateTime::from_timestamp(secs, 0).unwrap().format("%Y%m").to_string()
}

proof fn lemma_next_month(y: int, m: int)
    requires
        1 <= m <= 12,
    ensures
        first_day(y, m) + days_in_month(y, m) == (if m == 12 {
            first_day(y + 1, 1)
        } else {
            first_day(y, m + 1)
        }),
{
    if m == 12 {
        reveal_with_fuel(days_before_month, 13);
        assert(days_before_month(y, 12) == if leap_year(y) {
            335int
        } else {
            334int
        });
        assert(days_before_year(y + 1) - days_before_year(y) == if leap_year(y) {
            366int
        } else {
            365int
        });
    }
}

proof fn lemma_months_follow(y: int, m: int, y2: int, m2: int)
    requires
        1 <= m <= 12,
        1 <= m2 <= 12,
        12 * y + m < 12 * y2 + m2,
    ensures
        first_day(y, m) + days_in_month(y, m) <= first_day(y2, m2),
    decreases 12 * (y2 - y) + (m2 - m),
{
    lemma_next_month(y, m);
    let (ny, nm) = if m == 12 {
        (y + 1, 1int)
    } else {
        (y, m + 1)
    };
    if 12 * ny + nm < 12 * y2 + m2 {
        lemma_months_follow(ny, nm, y2, m2);
    }
}

/// A second lies in one month only.
pub proof fn month_is_unique(secs: int, y: int, m: int)
    requires
        lies_in_month(secs, y, m),
    ensures
        month_of(secs) == (y, m),
{
    let p = (y, m);
    assert(lies_in_month(secs, p.0, p.1));
    let q = month_of(secs);
    assert(lies_in_month(secs, q.0, q.1));
    if 12 * q.0 + q.1 < 12 * y + m {
        lemma_months_follow(q.0, q.1, y, m);
    } else if 12 * y + m < 12 * q.0 + q.1 {
        lemma_months_follow(y, m, q.0, q.1);
    }
}

/// The year and month that a second lies in.
pub fn year_month(secs: i64) -> (r: String)
    requires
        FIRST_SECOND <= secs <= LAST_SECOND,
    ensures
        r@ == month_text(month_of(secs as int).0, month_of(secs as int).1),
{
    let r = format_month(secs);
    proof {
        let (y, m) = choose|y: int, m: int| #[trigger]
            lies_in_month(secs as int, y, m) && r@ == month_text(y, m);
        month_is_unique(secs as int, y, m);
    }
    r
}

/// A time span counts as so many seconds, minutes or days once they have passed
/// in full, and no sooner.
pub proof fn time_passes_in_full(later: Moment, earlier: Moment, n: int)
    requires
        later.nanos < 1_000_000_000,
        earlier.nanos < 1_000_000_000,
        n > 0,
    ensures
        ({
            let passed = (later.secs * 1_000_000_000 + later.nanos) - (earlier.secs * 1_000_000_000
                + earlier.nanos);
            &&& seconds_between(later, earlier) >= n <==> passed >= n * 1_000_000_000
            &&& minutes_between(later, earlier) >= n <==> passed >= n * 60_000_000_000
            &&& days_between(later, earlier) >= n <==> passed >= n * 86_400_000_000_000
        }),
        seconds_between(later, earlier) == -seconds_between(earlier, later),
        minutes_between(later, earlier) == -minutes_between(earlier, later),
        days_between(later, earlier) == -days_between(earlier, later),
{
}

} // verus!
