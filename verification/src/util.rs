//! Time and its text forms.

use chrono::{Datelike, TimeZone, Timelike};
use vstd::prelude::*;

use crate::text::{decimal, push_decimal};

verus! {

/// `std::time::SystemTime::now`: milliseconds since the Unix epoch, `None`
/// where the clock stands before it. Nothing is known of the time.
#[verifier::external_body]
fn clock_millis() -> (r: Option<u128>) {
    match std::time::SystemTime::now().duration_since(std::time::UNIX_EPOCH) {
        Ok(d) => Some(d.as_millis()),
        Err(_) => None,
    }
}

/// Milliseconds since the Unix epoch; zero for a clock before it.
pub fn unix_millis() -> (r: u64) {
    millis_of(clock_millis())
}

/// A clock reading as the 64-bit number of milliseconds that messages carry.
pub fn millis_of(clock: Option<u128>) -> (r: u64)
    ensures
        clock matches Some(ms) ==> r == ms as u64,
        clock is None ==> r == 0,
{
    match clock {
        Some(ms) => ms as u64,
        None => 0,
    }
}

/// A moment in local time.
#[derive(Clone, Copy, Debug, PartialEq, Eq, Structural)]
pub struct LocalTime {
    pub month: u32,
    pub day: u32,
    pub hour: u32,
    pub minute: u32,
    pub second: u32,
}

impl LocalTime {
    pub open spec fn wf(self) -> bool {
        &&& 1 <= self.month <= 12
        &&& 1 <= self.day <= 31
        &&& self.hour <= 23
        &&& self.minute <= 59
        &&& self.second <= 59
    }
}

/// The first millisecond of the year -262143, since the Unix epoch.
pub const FIRST_MILLIS: i64 = -8_334_601_228_800_000;

/// The last millisecond of the year 262142, since the Unix epoch.
pub const LAST_MILLIS: i64 = 8_210_266_876_799_999;

/// Whether a timestamp has a date.
pub open spec fn has_date(ms: i64) -> bool {
    FIRST_MILLIS <= ms <= LAST_MILLIS
}

/// The number of a day of the Gregorian calendar, counted from the first of
/// 1970. Years are taken to begin in March, so that a leap day is the last.
pub open spec fn day_number(year: int, month: int, day: int) -> int {
    let y = if month >= 3 {
        year
    } else {
        year - 1
    };
    let m = if month >= 3 {
        month - 3
    } else {
        month + 9
    };
    365 * y + y / 4 - y / 100 + y / 400 + (153 * m + 2) / 5 + day - 719_469
}

/// The seconds that a clock in a year shows, counted from the start of 1970.
pub open spec fn local_seconds(year: int, t: LocalTime) -> int {
    86_400 * day_number(year, t.month as int, t.day as int) + 3_600 * t.hour + 60 * t.minute
        + t.second
}

/// Whether a clock that is less than a day ahead of UTC or behind it can show
/// this time at a timestamp.
pub open spec fn may_be_local(ms: i64, t: LocalTime) -> bool {
    exists|year: int|
        -86_400 < (#[trigger] local_seconds(year, t)) - (ms as int) / 1000 < 86_400
}

/// Whether chrono may give this month, day, hour, minute and second for a
/// timestamp, in some time zone.
pub uninterp spec fn may_show(
    ms: i64,
    month: u32,
    day: u32,
    hour: u32,
    minute: u32,
    second: u32,
) -> bool;

/// Whether this is a local time that a timestamp may have.
pub open spec fn is_local(ms: i64, t: LocalTime) -> bool {
    &&& t.wf()
    &&& may_be_local(ms, t)
    &&& may_show(ms, t.month, t.day, t.hour, t.minute, t.second)
}

/// `chrono::Local::timestamp_millis_opt`: the local date and time of a
/// timestamp, `None` exactly where it lies outside the years that chrono
/// counts. Which moment it is depends on the machine's time zone, whose offset
/// from UTC is less than a day. So the result is one that this timestamp may
/// give; nothing is said of which one.
#[verifier::external_body]
fn local_time(ms: i64) -> (r: Option<LocalTime>)
    ensures
        r is Some <==> has_date(ms),
        r matches Some(t) ==> t.wf() && may_be_local(ms, t),
        r matches Some(t) ==> may_show(ms, t.month, t.day, t.hour, t.minute, t.second),
{
    let t = chrono::Local.timestamp_millis_opt(ms).single()?;
    Some(
        LocalTime {
            month: t.month(),
            day: t.day(),
            hour: t.hour(),
            minute: t.minute(),
            second: t.second(),
        },
    )
}

/// Two decimal digits.
pub open spec fn two_digits(n: nat) -> Seq<char> {
    if n < 10 {
        seq!['0'] + decimal(n)
    } else {
        decimal(n)
    }
}

fn push_two_digits(s: &mut String, n: u32)
    ensures
        final(s)@ == old(s)@ + two_digits(n as nat),
{
    if n < 10 {
        s.push('0');
    }
    push_decimal(s, n as u64);
    assert(s@ =~= old(s)@ + two_digits(n as nat));
}

/// `HH:MM:SS`
pub open spec fn clock_text(t: LocalTime) -> Seq<char> {
    two_digits(t.hour as nat) + seq![':'] + two_digits(t.minute as nat) + seq![':'] + two_digits(
        t.second as nat,
    )
}

/// `mm-dd HH:MM`
pub open spec fn date_text(t: LocalTime) -> Seq<char> {
    two_digits(t.month as nat) + seq!['-'] + two_digits(t.day as nat) + seq![' '] + two_digits(
        t.hour as nat,
    ) + seq![':'] + two_digits(t.minute as nat)
}

/// The time of day, dashes where there is none.
pub fn clock_of(t: Option<LocalTime>) -> (r: String)
    ensures
        t matches Some(t) ==> r@ == clock_text(t),
        t is None ==> r@ == "--:--:--"@,
{
    match t {
        Some(t) => {
            let mut s = String::new();
            push_two_digits(&mut s, t.hour);
            s.push(':');
            push_two_digits(&mut s, t.minute);
            s.push(':');
            push_two_digits(&mut s, t.second);
            assert(s@ =~= clock_text(t));
            s
        },
        None => "--:--:--".to_owned(),
    }
}

/// The date and time, a dash where there is none.
pub fn date_of(t: Option<LocalTime>) -> (r: String)
    ensures
        t matches Some(t) ==> r@ == date_text(t),
        t is None ==> r@ == "-"@,
{
    match t {
        Some(t) => {
            let mut s = String::new();
            push_two_digits(&mut s, t.month);
            s.push('-');
            push_two_digits(&mut s, t.day);
            s.push(' ');
            push_two_digits(&mut s, t.hour);
            s.push(':');
            push_two_digits(&mut s, t.minute);
            assert(s@ =~= date_text(t));
            s
        },
        None => "-".to_owned(),
    }
}

/// Whether a text is the time of day of a timestamp in some time zone.
pub open spec fn shows_clock(ms: u64, s: Seq<char>) -> bool {
    if has_date(ms as i64) {
        exists|t: LocalTime| is_local(ms as i64, t) && s == #[trigger] clock_text(t)
    } else {
        s == "--:--:--"@
    }
}

/// Whether a text is the date and time of a timestamp in some time zone.
pub open spec fn shows_date(ms: u64, s: Seq<char>) -> bool {
    if has_date(ms as i64) {
        exists|t: LocalTime| is_local(ms as i64, t) && s == #[trigger] date_text(t)
    } else {
        s == "-"@
    }
}

/// The local time of day of a timestamp.
pub fn format_time(ms: u64) -> (r: String)
    ensures
        shows_clock(ms, r@),
{
    clock_of(local_time(ms as i64))
}

/// The local date and time of a timestamp.
pub fn format_ts(ms: u64) -> (r: String)
    ensures
        shows_date(ms, r@),
{
    date_of(local_time(ms as i64))
}

} // verus!
