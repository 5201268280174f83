//! The interval of a loop as a cron expression.

use vstd::prelude::*;

use crate::text;

verus! {

/// Why an interval has no cron expression.
#[derive(Clone, Copy, Debug, PartialEq, Eq, Structural)]
pub enum IntervalError {
    /// What stands before the unit is no number.
    NotNumeric,
    /// Minutes from an hour up must come to a divisor of a day's hours.
    Uneven,
    /// The unit is unknown, or the number is out of its range.
    UnsupportedUnit,
}

/// Every `n` minutes.
pub open spec fn every_minutes(n: nat) -> Seq<char> {
    "*/"@ + text::decimal(n) + " * * * *"@
}

/// Every `n` hours, on the hour.
pub open spec fn every_hours(n: nat) -> Seq<char> {
    "0 */"@ + text::decimal(n) + " * * *"@
}

/// Every `n` days, at midnight.
pub open spec fn every_days(n: nat) -> Seq<char> {
    "0 0 */"@ + text::decimal(n) + " * *"@
}

/// The cron expression of an interval: a number and a unit. Seconds round up to
/// a minute. Minutes from sixty on become whole hours, which must divide a day.
pub open spec fn cron_of(s: Seq<char>) -> Result<Seq<char>, IntervalError> {
    if s.len() == 0 {
        Err(IntervalError::NotNumeric)
    } else {
        match text::parsed_u64(s.drop_last()) {
            None => Err(IntervalError::NotNumeric),
            Some(n) => if s.last() == 's' {
                Ok(every_minutes(1))
            } else if s.last() == 'm' && n <= 59 {
                Ok(every_minutes(n as nat))
            } else if s.last() == 'm' {
                if 24int % (n as int / 60) != 0 {
                    Err(IntervalError::Uneven)
                } else {
                    Ok(every_hours((n / 60) as nat))
                }
            } else if s.last() == 'h' && n <= 23 {
                Ok(every_hours(n as nat))
            } else if s.last() == 'd' {
                Ok(every_days(n as nat))
            } else {
                Err(IntervalError::UnsupportedUnit)
            },
        }
    }
}

/// The text of a cron expression, around its step.
fn stepped(head: &str, n: u64, tail: &str) -> (r: String)
    ensures
        r@ == head@ + text::decimal(n as nat) + tail@,
{
    let mut r = String::from_str(head);
    r.append(text::show_u64(n).as_str());
    r.append(tail);
    r
}

/// The cron expression of an interval such as `5m`, `2h` or `1d`. The unit is
/// the last byte of the text, so the last character must be a single byte.
pub fn interval_to_cron(s: &str) -> (r: Result<String, IntervalError>)
    requires
        s@.len() == 0 || s@.last() <= '\u{7f}',
    ensures
        match (r, cron_of(s@)) {
            (Ok(cron), Ok(expected)) => cron@ == expected,
            (Err(e), Err(expected)) => e == expected,
            _ => false,
        },
{
    let v = text::chars_of(s);
    if v.len() == 0 {
        return Err(IntervalError::NotNumeric);
    }
    let digits = text::string_of(&v, 0, v.len() - 1);
    assert(digits@ =~= s@.drop_last());
    let unit = v[v.len() - 1];
    let n: u64 = match text::parse_u64(digits.as_str()) {
        Some(n) => n,
        None => return Err(IntervalError::NotNumeric),
    };
    if unit == 's' {
        Ok(stepped("*/", 1, " * * * *"))
    } else if unit == 'm' && n <= 59 {
        Ok(stepped("*/", n, " * * * *"))
    } else if unit == 'm' {
        let h: u64 = n / 60;
        if 24 % h != 0 {
            return Err(IntervalError::Uneven);
        }
        Ok(stepped("0 */", h, " * * *"))
    } else if unit == 'h' && n <= 23 {
        Ok(stepped("0 */", n, " * * *"))
    } else if unit == 'd' {
        Ok(stepped("0 0 */", n, " * *"))
    } else {
        Err(IntervalError::UnsupportedUnit)
    }
}

/// What a refused interval is answered.
pub open spec fn refusal(e: IntervalError, s: Seq<char>) -> Seq<char> {
    match e {
        IntervalError::NotNumeric => "interval prefix not numeric: "@ + s,
        IntervalError::Uneven => "interval "@ + s + " doesn't cleanly divide hours"@,
        IntervalError::UnsupportedUnit => "unsupported interval unit in "@ + s,
    }
}

/// The message for a refused interval.
pub fn refusal_message(e: IntervalError, s: &str) -> (r: String)
    ensures
        r@ == refusal(e, s@),
{
    match e {
        IntervalError::NotNumeric => {
            let mut r = String::from_str("interval prefix not numeric: ");
            r.append(s);
            r
        },
        IntervalError::Uneven => {
            let mut r = String::from_str("interval ");
            r.append(s);
            r.append(" doesn't cleanly divide hours");
            r
        },
        IntervalError::UnsupportedUnit => {
            let mut r = String::from_str("unsupported interval unit in ");
            r.append(s);
            r
        },
    }
}

// ---- laws -----------------------------------------------------------------

proof fn lemma_written(n: u64, unit: Seq<char>)
    requires
        unit.len() == 1,
    ensures
        (text::decimal(n as nat) + unit).len() > 0,
        (text::decimal(n as nat) + unit).last() == unit[0],
        text::parsed_u64((text::decimal(n as nat) + unit).drop_last()) == Some(n),
{
    text::numbers_read_back(n);
    let s = text::decimal(n as nat) + unit;
    assert(s.drop_last() =~= text::decimal(n as nat));
}

/// A loop that is to run every `n` minutes, for less than an hour, runs every `n`
/// minutes: what stands in the place of the minutes is a step, and the step reads
/// as the number that was asked for.
pub proof fn minutes_are_the_step(n: u64)
    requires
        1 <= n <= 59,
    ensures
        cron_of(text::decimal(n as nat) + "m"@) == Ok::<Seq<char>, IntervalError>(
            "*/"@ + text::decimal(n as nat) + " * * * *"@,
        ),
        text::parsed_u64(
            cron_of(text::decimal(n as nat) + "m"@)->Ok_0.subrange(
                2,
                2 + text::decimal(n as nat).len() as int,
            ),
        ) == Some(n),
{
    reveal_strlit("m");
    reveal_strlit("*/");
    lemma_written(n, "m"@);
    text::numbers_read_back(n);
    let d = text::decimal(n as nat);
    assert(("*/"@ + d + " * * * *"@).subrange(2, 2 + d.len() as int) =~= d);
}

/// A loop that is to run every `n` hours, for less than a day, runs on the hour,
/// every `n` hours.
pub proof fn hours_are_the_step(n: u64)
    requires
        1 <= n <= 23,
    ensures
        cron_of(text::decimal(n as nat) + "h"@) == Ok::<Seq<char>, IntervalError>(
            "0 */"@ + text::decimal(n as nat) + " * * *"@,
        ),
        text::parsed_u64(
            cron_of(text::decimal(n as nat) + "h"@)->Ok_0.subrange(
                4,
                4 + text::decimal(n as nat).len() as int,
            ),
        ) == Some(n),
{
    reveal_strlit("h");
    reveal_strlit("0 */");
    lemma_written(n, "h"@);
    text::numbers_read_back(n);
    let d = text::decimal(n as nat);
    assert(("0 */"@ + d + " * * *"@).subrange(4, 4 + d.len() as int) =~= d);
}

/// A loop that is to run every `n` days runs at midnight, every `n` days.
pub proof fn days_are_the_step(n: u64)
    ensures
        cron_of(text::decimal(n as nat) + "d"@) == Ok::<Seq<char>, IntervalError>(
            "0 0 */"@ + text::decimal(n as nat) + " * *"@,
        ),
        text::parsed_u64(
            cron_of(text::decimal(n as nat) + "d"@)->Ok_0.subrange(
                6,
                6 + text::decimal(n as nat).len() as int,
            ),
        ) == Some(n),
{
    reveal_strlit("d");
    reveal_strlit("0 0 */");
    lemma_written(n, "d"@);
    text::numbers_read_back(n);
    let d = text::decimal(n as nat);
    assert(("0 0 */"@ + d + " * *"@).subrange(6, 6 + d.len() as int) =~= d);
}

/// So many hours are the same interval as sixty times as many minutes, where
/// they divide a day; minutes that fill no hour are left off.
pub proof fn hours_are_sixty_minutes(h: u64, rest: u64)
    requires
        1 <= h <= 23,
        24int % (h as int) == 0,
        rest < 60,
    ensures
        cron_of(text::decimal((h * 60 + rest) as nat) + "m"@) == cron_of(
            text::decimal(h as nat) + "h"@,
        ),
{
    reveal_strlit("m");
    reveal_strlit("h");
    let n: u64 = (h * 60 + rest) as u64;
    lemma_written(n, "m"@);
    lemma_written(h, "h"@);
}

/// Minutes from an hour up that begin an hour no divisor of a day has are
/// refused, and none below an hour is.
pub proof fn uneven_minutes_are_refused(n: u64)
    ensures
        cron_of(text::decimal(n as nat) + "m"@) is Err <==> n >= 60 && 24int % (n as int / 60)
            != 0,
        cron_of(text::decimal(n as nat) + "m"@) is Err ==> cron_of(
            text::decimal(n as nat) + "m"@,
        ) == Err::<Seq<char>, IntervalError>(IntervalError::Uneven),
{
    reveal_strlit("m");
    lemma_written(n, "m"@);
}

/// Seconds are rounded up to a minute, however many there are.
pub proof fn seconds_are_a_minute(n: u64)
    ensures
        cron_of(text::decimal(n as nat) + "s"@) == Ok::<Seq<char>, IntervalError>(
            "*/1 * * * *"@,
        ),
{
    reveal_strlit("s");
    lemma_written(n, "s"@);
    reveal_strlit("*/");
    reveal_strlit(" * * * *");
    reveal_strlit("*/1 * * * *");
    assert(text::decimal(1) =~= seq!['1']);
    assert("*/"@ + text::decimal(1) + " * * * *"@ =~= "*/1 * * * *"@);
}

/// An interval that gets an expression is a number and one of the four units,
/// and nothing else.
pub proof fn only_intervals_are_scheduled(s: Seq<char>)
    ensures
        cron_of(s) is Ok ==> s.len() >= 2 && text::parsed_u64(s.drop_last()) is Some && (s.last()
            == 's' || s.last() == 'm' || s.last() == 'h' || s.last() == 'd'),
        cron_of(s) == Err::<Seq<char>, IntervalError>(IntervalError::NotNumeric) <==> s.len() == 0
            || text::parsed_u64(s.drop_last()) is None,
{
}

/// A day's hours and more, and units that are none of the four, are refused.
pub proof fn other_intervals_are_refused(n: u64, unit: Seq<char>)
    requires
        unit.len() == 1,
        unit[0] == 'h' ==> n >= 24,
        unit[0] != 's' && unit[0] != 'm' && unit[0] != 'd',
    ensures
        cron_of(text::decimal(n as nat) + unit) == Err::<Seq<char>, IntervalError>(
            IntervalError::UnsupportedUnit,
        ),
{
    lemma_written(n, unit);
}

} // verus!
