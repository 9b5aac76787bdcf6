//! What the clock and the calendar show.

use vstd::prelude::*;

use crate::scan::{all_digits, lemma_decimal, number};
use crate::text::decimal;
use crate::util::{clock_text, date_text, day_number, two_digits, LocalTime};

verus! {

/// Two digits stand for the number.
pub proof fn law_two_digits(n: nat)
    requires
        n < 100,
    ensures
        two_digits(n).len() == 2,
        all_digits(two_digits(n)),
        number(two_digits(n), 10) == n,
{
    lemma_decimal(n);
    let t = two_digits(n);
    if n < 10 {
        let d = decimal(n);
        assert(t.drop_last() =~= seq!['0']);
        assert(seq!['0'].drop_last() =~= Seq::<char>::empty());
        assert(number(Seq::<char>::empty(), 10) == 0);
        assert(number(seq!['0'], 10) == 0);
        assert(d.drop_last() =~= Seq::<char>::empty());
        assert(t.last() == d.last());
        assert(t[1] == d[0]);
    }
}

/// The number that two characters of a text stand for.
pub open spec fn number_at(s: Seq<char>, i: int) -> nat {
    number(s.subrange(i, i + 2), 10)
}

/// A time of day shows the hour, the minute and the second with two digits
/// each, and a date the month, the day, the hour and the minute.
pub proof fn law_times_shown(t: LocalTime)
    requires
        t.wf(),
    ensures
        ({
            let c = clock_text(t);
            &&& c.len() == 8 && c[2] == ':' && c[5] == ':'
            &&& number_at(c, 0) == t.hour
            &&& number_at(c, 3) == t.minute
            &&& number_at(c, 6) == t.second
        }),
        ({
            let d = date_text(t);
            &&& d.len() == 11 && d[2] == '-' && d[5] == ' ' && d[8] == ':'
            &&& number_at(d, 0) == t.month
            &&& number_at(d, 3) == t.day
            &&& number_at(d, 6) == t.hour
            &&& number_at(d, 9) == t.minute
        }),
{
    law_two_digits(t.hour as nat);
    law_two_digits(t.minute as nat);
    law_two_digits(t.second as nat);
    law_two_digits(t.month as nat);
    law_two_digits(t.day as nat);
    let c = clock_text(t);
    let d = date_text(t);
    assert(c.subrange(0, 2) =~= two_digits(t.hour as nat));
    assert(c.subrange(3, 5) =~= two_digits(t.minute as nat));
    assert(c.subrange(6, 8) =~= two_digits(t.second as nat));
    assert(d.subrange(0, 2) =~= two_digits(t.month as nat));
    assert(d.subrange(3, 5) =~= two_digits(t.day as nat));
    assert(d.subrange(6, 8) =~= two_digits(t.hour as nat));
    assert(d.subrange(9, 11) =~= two_digits(t.minute as nat));
}

/// Whether a year has a leap day.
pub open spec fn is_leap(year: int) -> bool {
    year % 4 == 0 && (year % 100 != 0 || year % 400 == 0)
}

/// How many days a month has.
pub open spec fn days_in(year: int, month: int) -> int {
    if month == 2 {
        if is_leap(year) {
            29
        } else {
            28
        }
    } else if month == 4 || month == 6 || month == 9 || month == 11 {
        30
    } else {
        31
    }
}

/// Days are counted through: each day of a month is one after the one before,
/// and the first of a month comes after the last of the month before, from the
/// first of 1970 on and back.
pub proof fn law_days_are_counted(year: int, month: int, day: int)
    requires
        1 <= month <= 12,
    ensures
        day_number(year, month, day + 1) == day_number(year, month, day) + 1,
        month < 12 ==> day_number(year, month + 1, 1) == day_number(year, month, 1) + days_in(
            year,
            month,
        ),
        day_number(year + 1, 1, 1) == day_number(year, 12, 1) + days_in(year, 12),
        day_number(1970, 1, 1) == 0,
{
    lemma_leap_days(year);
    if month == 2 {
        assert(day_number(year, 3, 1) == leap_days(year) + 365 * year + 1 - 719_469);
        assert(day_number(year, 2, 1) == leap_days(year - 1) + 365 * (year - 1) + 338 - 719_469);
    }
}

/// How many years before the end of a year had a leap day.
spec fn leap_days(y: int) -> int {
    y / 4 - y / 100 + y / 400
}

proof fn lemma_leap_days(y: int)
    ensures
        leap_days(y) - leap_days(y - 1) == if is_leap(y) {
            1int
        } else {
            0int
        },
{
    assert(y / 4 - (y - 1) / 4 == if y % 4 == 0 {
        1int
    } else {
        0int
    });
    assert(y / 100 - (y - 1) / 100 == if y % 100 == 0 {
        1int
    } else {
        0int
    });
    assert(y / 400 - (y - 1) / 400 == if y % 400 == 0 {
        1int
    } else {
        0int
    });
    assert(y % 100 == 0 ==> y % 4 == 0);
    assert(y % 400 == 0 ==> y % 100 == 0);
}

} // verus!
