//! The calendar behind the dates shown.

use vstd::prelude::*;
use crate::model::Meta;
use crate::window;

verus! {

/// Every fourth year is a leap year, but for whole centuries that are not
/// divisible by 400.
pub open spec fn is_leap(y: int) -> bool {
    y % 4 == 0 && (y % 100 != 0 || y % 400 == 0)
}

/// The number of days in a month.
pub open spec fn month_len(y: int, m: int) -> int {
    if m == 2 {
        if is_leap(y) {
            29
        } else {
            28
        }
    } else if m == 4 || m == 6 || m == 9 || m == 11 {
        30
    } else {
        31
    }
}

/// The number of days in the year before its month `m`.
pub open spec fn days_before_month(y: int, m: int) -> int {
    let leap: int = if is_leap(y) {
        1
    } else {
        0
    };
    if m == 1 {
        0
    } else if m == 2 {
        31
    } else if m == 3 {
        59 + leap
    } else if m == 4 {
        90 + leap
    } else if m == 5 {
        120 + leap
    } else if m == 6 {
        151 + leap
    } else if m == 7 {
        181 + leap
    } else if m == 8 {
        212 + leap
    } else if m == 9 {
        243 + leap
    } else if m == 10 {
        273 + leap
    } else if m == 11 {
        304 + leap
    } else {
        334 + leap
    }
}

/// The number of days from the start of 1970 to the start of the year.
pub open spec fn days_to_year(y: int) -> int {
    365 * (y - 1970) + ((y - 1) / 4 - 492) - ((y - 1) / 100 - 19) + ((y - 1) / 400 - 4)
}

/// The day number `day`, counted from the first of January 1970, is that date.
pub open spec fn is_date(day: int, y: int, m: int, d: int) -> bool {
    &&& 1 <= m <= 12
    &&& 1 <= d <= month_len(y, m)
    &&& day == days_to_year(y) + days_before_month(y, m) + (d - 1)
}

/// The year of a day within a cycle of 400 years that start in March.
proof fn year_of_cycle(doe: int) -> (yoe: int)
    requires
        0 <= doe < 146_097,
    ensures
        yoe == (doe - doe / 1460 + doe / 36_524 - doe / 146_096) / 365,
        0 <= yoe < 400,
        0 <= doe - (365 * yoe + yoe / 4 - yoe / 100),
        doe < 365 * (yoe + 1) + (yoe + 1) / 4 - (yoe + 1) / 100 + (if yoe == 399 {
            1int
        } else {
            0
        }),
{
    let c = doe / 36_524;
    let f = doe / 1460;
    let yoe = (doe - f + c - doe / 146_096) / 365;
    yoe
}

/// The month and day of a day of a year that starts in March.
proof fn month_of_year(doy: int) -> (mp: int)
    requires
        0 <= doy < 366,
    ensures
        mp == (5 * doy + 2) / 153,
        0 <= mp < 12,
        0 <= doy - (153 * mp + 2) / 5,
        mp < 11 ==> doy < (153 * (mp + 1) + 2) / 5,
{
    (5 * doy + 2) / 153
}

/// Cycles of 400 years are alike.
proof fn leap_days(yoe: int, era: int)
    requires
        0 <= yoe < 400,
    ensures
        ({
            let y = yoe + era * 400;
            &&& y / 4 == yoe / 4 + 100 * era
            &&& y / 100 == yoe / 100 + 4 * era
            &&& y / 400 == era
        }),
{
}

/// One more year has one more leap day exactly if it is a leap year.
proof fn leap_days_grow(y: int)
    ensures
        y / 4 - y / 100 + y / 400 == (y - 1) / 4 - (y - 1) / 100 + (y - 1) / 400 + (if is_leap(y) {
            1int
        } else {
            0
        }),
{
}

/// The date of a day.
proof fn date_of(day: int) -> (r: (int, int, int))
    ensures
        ({
            let z = day + 719_468;
            let doe = z % 146_097;
            let yoe = (doe - doe / 1460 + doe / 36_524 - doe / 146_096) / 365;
            let doy = doe - (365 * yoe + yoe / 4 - yoe / 100);
            let mp = (5 * doy + 2) / 153;
            &&& r.2 == doy - (153 * mp + 2) / 5 + 1
            &&& r.1 == (if mp < 10 {
                mp + 3
            } else {
                mp - 9
            })
            &&& r.0 == yoe + (z / 146_097) * 400 + (if r.1 <= 2 {
                1int
            } else {
                0int
            })
        }),
        is_date(day, r.0, r.1, r.2),
{
    let z = day + 719_468;
    let era = z / 146_097;
    let doe = z % 146_097;
    let yoe = year_of_cycle(doe);
    let doy = doe - (365 * yoe + yoe / 4 - yoe / 100);
    let march = yoe + era * 400;
    leap_days(yoe, era);
    leap_days_grow(march);
    leap_days_grow(march + 1);
    assert(doy < 366);
    let mp = month_of_year(doy);
    let d = doy - (153 * mp + 2) / 5 + 1;
    let m = if mp < 10 {
        mp + 3
    } else {
        mp - 9
    };
    let y = march + (if m <= 2 {
        1int
    } else {
        0int
    });
    assert(z == 146_097 * era + doe);
    assert(z == 365 * march + march / 4 - march / 100 + march / 400 + doy);
    assert(doy == 365 ==> is_leap(march + 1)) by {
        if yoe < 399 {
            assert((march + 1) / 4 == (yoe + 1) / 4 + 100 * era);
            assert((march + 1) / 100 == (yoe + 1) / 100 + 4 * era);
            assert((march + 1) / 400 == era);
        } else {
            assert((march + 1) % 400 == 0);
        }
    }
    if m >= 3 {
        assert(days_to_year(march) + days_before_month(march, m) + (d - 1) == day);
    } else {
        assert(days_to_year(march + 1) + days_before_month(march + 1, m) + (d - 1) == day);
    }
    (y, m, d)
}

proof fn year_in_range(day: int, y: int, m: int, d: int)
    requires
        is_date(day, y, m, d),
        -1 <= day < 2_932_897,
    ensures
        1969 <= y <= 9999,
{
    assert(0 <= days_before_month(y, m) <= 335);
    if y <= 1968 {
        assert(days_to_year(y) <= days_to_year(1968));
    }
    if y >= 10_000 {
        assert(days_to_year(y) >= days_to_year(10_000));
    }
}

proof fn two_are_two(n: int)
    requires
        0 <= n < 100,
    ensures
        window::two_digits(n).len() == 2,
        window::two_digits(n)[0] as int == 48 + n / 10,
        window::two_digits(n)[1] as int == 48 + n % 10,
{
}

/// Ten parts of a date and a time, one behind the other.
proof fn laid_out(
    a: Seq<char>,
    b: Seq<char>,
    c: Seq<char>,
    d: Seq<char>,
    e: Seq<char>,
    f: Seq<char>,
    g: Seq<char>,
)
    requires
        a.len() == 2,
        b.len() == 2,
        c.len() == 2,
        d.len() == 2,
        e.len() == 2,
        f.len() == 2,
        g.len() == 2,
    ensures
        ({
            let s = a + b + c + d + seq![' '] + e + seq![':'] + f + seq![':'] + g;
            &&& s.len() == 17
            &&& s[0] == a[0] && s[1] == a[1] && s[2] == b[0] && s[3] == b[1]
            &&& s[4] == c[0] && s[5] == c[1] && s[6] == d[0] && s[7] == d[1]
            &&& s[8] == ' ' && s[9] == e[0] && s[10] == e[1] && s[11] == ':'
            &&& s[12] == f[0] && s[13] == f[1] && s[14] == ':' && s[15] == g[0] && s[16] == g[1]
        }),
{
}

/// A date and a time of day as they are written.
spec fn written(y: int, m: int, d: int, t: int) -> Seq<char> {
    window::two_digits(y / 100) + window::two_digits(y % 100) + window::two_digits(m)
        + window::two_digits(d) + seq![' '] + window::two_digits(t / 3600) + seq![':']
        + window::two_digits(t / 60 % 60) + seq![':'] + window::two_digits(t % 60)
}

/// The digits of a date and a time of day.
pub open spec fn has_digits(s: Seq<char>, y: int, m: int, d: int, t: int) -> bool {
    &&& s.len() == 17
    &&& s[0] as int == 48 + y / 1000
    &&& s[1] as int == 48 + y / 100 % 10
    &&& s[2] as int == 48 + y / 10 % 10
    &&& s[3] as int == 48 + y % 10
    &&& s[4] as int == 48 + m / 10
    &&& s[5] as int == 48 + m % 10
    &&& s[6] as int == 48 + d / 10
    &&& s[7] as int == 48 + d % 10
    &&& s[8] == ' '
    &&& s[9] as int == 48 + t / 3600 / 10
    &&& s[10] as int == 48 + t / 3600 % 10
    &&& s[11] == ':'
    &&& s[12] as int == 48 + t / 60 % 60 / 10
    &&& s[13] as int == 48 + t / 60 % 60 % 10
    &&& s[14] == ':'
    &&& s[15] as int == 48 + t % 60 / 10
    &&& s[16] as int == 48 + t % 60 % 10
}

proof fn written_in_digits(y: int, m: int, d: int, t: int)
    requires
        0 <= y <= 9999,
        0 <= m < 100,
        0 <= d < 100,
        0 <= t < 86_400,
    ensures
        has_digits(written(y, m, d, t), y, m, d, t),
{
    assert(y / 100 / 10 == y / 1000);
    assert(y % 100 / 10 == y / 10 % 10 && y % 100 % 10 == y % 10);
    two_are_two(y / 100);
    two_are_two(y % 100);
    two_are_two(m);
    two_are_two(d);
    two_are_two(t / 3600);
    two_are_two(t / 60 % 60);
    two_are_two(t % 60);
    laid_out(
        window::two_digits(y / 100),
        window::two_digits(y % 100),
        window::two_digits(m),
        window::two_digits(d),
        window::two_digits(t / 3600),
        window::two_digits(t / 60 % 60),
        window::two_digits(t % 60),
    );
}

proof fn date_written(secs: int) -> (date: (int, int, int))
    ensures
        is_date(secs / 86_400, date.0, date.1, date.2),
        window::stamp_of(secs) == written(date.0, date.1, date.2, secs % 86_400),
{
    let date = date_of(secs / 86_400);
    stamp_of_date(secs, date.0, date.1, date.2);
    date
}

/// The text for a moment between 1969 and the year 10000 shows its date in the
/// Gregorian calendar and its time of day, each in digits of its own.
pub proof fn stamps_show_the_date(secs: int) -> (date: (int, int, int))
    requires
        -86_400 <= secs < 253_402_300_800,
    ensures
        is_date(secs / 86_400, date.0, date.1, date.2),
        has_digits(window::stamp_of(secs), date.0, date.1, date.2, secs % 86_400),
{
    let date = date_written(secs);
    year_in_range(secs / 86_400, date.0, date.1, date.2);
    written_in_digits(date.0, date.1, date.2, secs % 86_400);
    date
}

/// How the date of a day is written.
proof fn stamp_of_date(secs: int, y: int, m: int, d: int)
    requires
        ({
            let z = secs / 86_400 + 719_468;
            let doe = z % 146_097;
            let yoe = (doe - doe / 1460 + doe / 36_524 - doe / 146_096) / 365;
            let doy = doe - (365 * yoe + yoe / 4 - yoe / 100);
            let mp = (5 * doy + 2) / 153;
            &&& d == doy - (153 * mp + 2) / 5 + 1
            &&& m == (if mp < 10 {
                mp + 3
            } else {
                mp - 9
            })
            &&& y == yoe + (z / 146_097) * 400 + (if m <= 2 {
                1int
            } else {
                0int
            })
        }),
    ensures
        window::stamp_of(secs) == written(y, m, d, secs % 86_400),
{
}

/// The second that is shown is the last whole one not after the modification.
pub proof fn shown_seconds_are_whole(m: Meta)
    ensures
        10_000_000 * window::second_of(m) <= m.mtime - 116_444_736_000_000_000,
        m.mtime - 116_444_736_000_000_000 < 10_000_000 * window::second_of(m) + 10_000_000,
{
}

/// What is shown is the moment moved by less than a day.
pub proof fn zones_lie_within_a_day(s: Seq<char>, secs: int, off: int)
    requires
        window::shows_moment(s, secs, off),
    ensures
        -86_400 < off < 86_400,
        s == window::stamp_of(secs + off),
{
}

} // verus!
