//! UTC timestamps: the calendar date and time of day of a count of seconds
//! since 1970-01-01 00:00:00 UTC, in the proleptic Gregorian calendar.

use vstd::prelude::*;

use crate::text::{
    lemma_lex_step, lemma_zero_padded_ordered, lemma_zero_padded_width, lex_less, push_char,
    push_zero_padded, zero_padded,
};

verus! {

/// Gregorian leap year: divisible by 4, and not by 100 unless by 400.
pub open spec fn is_leap(year: int) -> bool {
    year % 4 == 0 && (year % 100 != 0 || year % 400 == 0)
}

/// Number of days in `year`.
pub open spec fn year_length(year: int) -> int {
    if is_leap(year) {
        366
    } else {
        365
    }
}

/// Number of days in `month` (1 to 12) of `year`.
pub open spec fn days_in_month(year: int, month: int) -> int {
    if month == 2 {
        if is_leap(year) {
            29
        } else {
            28
        }
    } else if month == 4 || month == 6 || month == 9 || month == 11 {
        30
    } else {
        31
    }
}

/// Days from 1970-01-01 to the first day of `year` (for years from 1970 on).
pub open spec fn days_before_year(year: int) -> int
    decreases year - 1970,
{
    if year <= 1970 {
        0
    } else {
        days_before_year(year - 1) + year_length(year - 1)
    }
}

/// Days from the first day of `year` to the first day of `month`.
pub open spec fn days_before_month(year: int, month: int) -> int
    decreases month,
{
    if month <= 1 {
        0
    } else {
        days_before_month(year, month - 1) + days_in_month(year, month - 1)
    }
}

/// Days from 1970-01-01 to `year`-`month`-`day`.
pub open spec fn epoch_day(year: int, month: int, day: int) -> int {
    days_before_year(year) + days_before_month(year, month) + day - 1
}

/// A date of the calendar, from 1970 on.
pub open spec fn is_valid_date(year: int, month: int, day: int) -> bool {
    &&& year >= 1970
    &&& 1 <= month <= 12
    &&& 1 <= day <= days_in_month(year, month)
}

/// The date (year, month, day) of the day that lies `days` days after 1970-01-01.
pub open spec fn date_of_day(days: int) -> (int, int, int) {
    choose|year: int, month: int, day: int|
        is_valid_date(year, month, day) && epoch_day(year, month, day) == days
}

/// `YYYY-MM-DD HH:MM:SS UTC` for the given fields, each zero-padded, the year to at
/// least four digits.
pub open spec fn stamp_text(
    year: nat,
    month: nat,
    day: nat,
    hour: nat,
    minute: nat,
    second: nat,
) -> Seq<char> {
    zero_padded(year, 4) + seq!['-'] + zero_padded(month, 2) + seq!['-'] + zero_padded(day, 2)
        + seq![' '] + zero_padded(hour, 2) + seq![':'] + zero_padded(minute, 2) + seq![':']
        + zero_padded(second, 2) + seq![' ', 'U', 'T', 'C']
}

/// `YYYY-MM-DD HH:MM:SS UTC` for the instant `secs` seconds after 1970-01-01 00:00:00 UTC.
pub open spec fn timestamp_text(secs: nat) -> Seq<char> {
    let (year, month, day) = date_of_day((secs / 86400) as int);
    let rem = secs % 86400;
    stamp_text(year as nat, month as nat, day as nat, rem / 3600, (rem % 3600) / 60, rem % 60)
}

spec fn leaps_through(n: int) -> int {
    n / 4 - n / 100 + n / 400
}

spec fn days_before_march_year(yoe: int) -> int {
    365 * yoe + yoe / 4 - yoe / 100
}

spec fn month_table(month: int) -> int {
    if month == 1 {
        0
    } else if month == 2 {
        31
    } else if month == 3 {
        59
    } else if month == 4 {
        90
    } else if month == 5 {
        120
    } else if month == 6 {
        151
    } else if month == 7 {
        181
    } else if month == 8 {
        212
    } else if month == 9 {
        243
    } else if month == 10 {
        273
    } else if month == 11 {
        304
    } else {
        334
    }
}

/// The date of day `days`, computed over eras of 400 years that start on March 1st.
spec fn civil_of(days: int) -> (int, int, int) {
    let z = days + 719468;
    let era = z / 146097;
    let doe = z - era * 146097;
    let yoe = (doe - doe / 1460 + doe / 36524 - doe / 146096) / 365;
    let doy = doe - days_before_march_year(yoe);
    let mp = (5 * doy + 2) / 153;
    let d = doy - (153 * mp + 2) / 5 + 1;
    let m = if mp < 10 {
        mp + 3
    } else {
        mp - 9
    };
    let y = yoe + era * 400 + if m <= 2 {
        1int
    } else {
        0int
    };
    (y, m, d)
}

#[verifier::spinoff_prover]
proof fn lemma_days_before_year(year: int)
    requires
        year >= 1970,
    ensures
        days_before_year(year) == 365 * (year - 1970) + leaps_through(year - 1) - leaps_through(
            1969,
        ),
    decreases year - 1970,
{
    if year > 1970 {
        lemma_days_before_year(year - 1);
        lemma_leap_step(year - 1);
    }
}

#[verifier::spinoff_prover]
proof fn lemma_days_before_month(year: int, month: int)
    requires
        1 <= month <= 12,
    ensures
        days_before_month(year, month) == month_table(month) + if month > 2 && is_leap(year) {
            1int
        } else {
            0int
        },
{
    reveal_with_fuel(days_before_month, 12);
}

#[verifier::spinoff_prover]
proof fn lemma_year_of_era(doe: int)
    requires
        0 <= doe <= 146096,
    ensures
        ({
            let yoe = (doe - doe / 1460 + doe / 36524 - doe / 146096) / 365;
            &&& 0 <= yoe <= 399
            &&& days_before_march_year(yoe) <= doe
            &&& doe - days_before_march_year(yoe) < 365 + if is_leap(yoe + 1) {
                1int
            } else {
                0int
            }
        }),
{
}

#[verifier::spinoff_prover]
proof fn lemma_month_of(doy: int, leap: bool)
    requires
        0 <= doy < 365 + if leap {
            1int
        } else {
            0int
        },
    ensures
        ({
            let mp = (5 * doy + 2) / 153;
            let d = doy - (153 * mp + 2) / 5 + 1;
            let m = if mp < 10 {
                mp + 3
            } else {
                mp - 9
            };
            &&& 0 <= mp <= 11
            &&& 1 <= d
            &&& d <= (if m == 2 {
                if leap {
                    29int
                } else {
                    28int
                }
            } else if m == 4 || m == 6 || m == 9 || m == 11 {
                30int
            } else {
                31int
            })
            &&& m > 2 ==> doy == month_table(m) - 59 + d - 1
            &&& m <= 2 ==> doy == 306 + month_table(m) + d - 1
        }),
{
    let mp = (5 * doy + 2) / 153;
    assert(0 <= mp <= 11);
}

#[verifier::spinoff_prover]
proof fn lemma_leaps_era(era: int, x: int)
    ensures
        leaps_through(400 * era + x) == 97 * era + leaps_through(x),
{
    assert((400 * era + x) / 4 == 100 * era + x / 4);
    assert((400 * era + x) / 100 == 4 * era + x / 100);
    assert((400 * era + x) / 400 == era + x / 400);
}

#[verifier::spinoff_prover]
proof fn lemma_step_4(n: int)
    ensures
        n / 4 - (n - 1) / 4 == if n % 4 == 0 {
            1int
        } else {
            0int
        },
{
}

#[verifier::spinoff_prover]
proof fn lemma_step_100(n: int)
    ensures
        n / 100 - (n - 1) / 100 == if n % 100 == 0 {
            1int
        } else {
            0int
        },
{
}

#[verifier::spinoff_prover]
proof fn lemma_step_400(n: int)
    ensures
        n / 400 - (n - 1) / 400 == if n % 400 == 0 {
            1int
        } else {
            0int
        },
{
}

proof fn lemma_leap_step(n: int)
    ensures
        leaps_through(n) - leaps_through(n - 1) == if is_leap(n) {
            1int
        } else {
            0int
        },
{
    lemma_step_4(n);
    lemma_step_100(n);
    lemma_step_400(n);
    assert(n % 400 == 0 ==> n % 100 == 0 && n % 4 == 0);
    assert(n % 100 == 0 ==> n % 4 == 0);
}

#[verifier::spinoff_prover]
proof fn lemma_leap_era(era: int, x: int)
    ensures
        is_leap(400 * era + x) == is_leap(x),
{
    assert((400 * era + x) % 4 == x % 4);
    assert((400 * era + x) % 100 == x % 100);
    assert((400 * era + x) % 400 == x % 400);
}

#[verifier::spinoff_prover]
proof fn lemma_assemble(era: int, yoe: int, doy: int, y: int, m: int, d: int)
    requires
        era >= 0,
        0 <= yoe <= 399,
        y >= 1970,
        1 <= m <= 12,
        m > 2 ==> y == 400 * era + yoe && doy == month_table(m) - 59 + d - 1,
        m <= 2 ==> y == 400 * era + yoe + 1 && doy == 306 + month_table(m) + d - 1,
    ensures
        epoch_day(y, m, d) == 146097 * era + days_before_march_year(yoe) + doy - 719468,
{
    lemma_days_before_year(y);
    lemma_days_before_month(y, m);
    lemma_leaps_era(0, yoe);
    lemma_leaps_era(era, yoe);
    if m > 2 {
        lemma_leap_step(y);
    }
}

#[verifier::spinoff_prover]
proof fn lemma_civil_of(days: int)
    requires
        days >= 0,
    ensures
        ({
            let (y, m, d) = civil_of(days);
            is_valid_date(y, m, d) && epoch_day(y, m, d) == days
        }),
{
    let z = days + 719468;
    let era = z / 146097;
    let doe = z - era * 146097;
    assert(era >= 0 && 0 <= doe <= 146096);
    lemma_year_of_era(doe);
    let yoe = (doe - doe / 1460 + doe / 36524 - doe / 146096) / 365;
    let doy = doe - days_before_march_year(yoe);
    lemma_month_of(doy, is_leap(yoe + 1));
    let (y, m, d) = civil_of(days);
    lemma_leap_era(era, yoe + 1);
    assert(era >= 4);
    if era == 4 {
        assert(doe >= 135080);
        assert(yoe >= 369);
        if yoe == 369 {
            assert(doy >= 306);
        }
    }
    assert(y >= 1970);
    lemma_assemble(era, yoe, doy, y, m, d);
}

proof fn lemma_day_in_year(year: int, month: int, day: int)
    requires
        is_valid_date(year, month, day),
    ensures
        0 <= days_before_month(year, month) + day - 1 < year_length(year),
{
    lemma_days_before_month(year, month);
}

proof fn lemma_days_before_year_grows(earlier: int, later: int)
    requires
        1970 <= earlier < later,
    ensures
        days_before_year(earlier) + year_length(earlier) <= days_before_year(later),
    decreases later - earlier,
{
    if later > earlier + 1 {
        lemma_days_before_year_grows(earlier, later - 1);
    }
}

/// Two dates of the calendar that fall on the same day are the same date.
pub proof fn lemma_epoch_day_injective(y1: int, m1: int, d1: int, y2: int, m2: int, d2: int)
    requires
        is_valid_date(y1, m1, d1),
        is_valid_date(y2, m2, d2),
        epoch_day(y1, m1, d1) == epoch_day(y2, m2, d2),
    ensures
        y1 == y2 && m1 == m2 && d1 == d2,
{
    lemma_day_in_year(y1, m1, d1);
    lemma_day_in_year(y2, m2, d2);
    if y1 < y2 {
        lemma_days_before_year_grows(y1, y2);
    } else if y2 < y1 {
        lemma_days_before_year_grows(y2, y1);
    } else {
        lemma_days_before_month(y1, m1);
        lemma_days_before_month(y1, m2);
    }
}

/// Every day from 1970-01-01 on has a date of the calendar, and that date falls on it.
pub proof fn lemma_date_of_day(days: int)
    requires
        days >= 0,
    ensures
        is_valid_date(date_of_day(days).0, date_of_day(days).1, date_of_day(days).2),
        epoch_day(date_of_day(days).0, date_of_day(days).1, date_of_day(days).2) == days,
{
    lemma_civil_of(days);
    lemma_date_of_day_is_civil(days);
}

proof fn lemma_date_of_day_is_civil(days: int)
    requires
        days >= 0,
    ensures
        date_of_day(days) == civil_of(days),
{
    lemma_civil_of(days);
    let (y, m, d) = civil_of(days);
    assert(is_valid_date(y, m, d) && epoch_day(y, m, d) == days);
    let (y2, m2, d2) = date_of_day(days);
    lemma_epoch_day_injective(y, m, d, y2, m2, d2);
}

/// The time fields of a timestamp are a time of day, and together with the day they
/// give back the count of seconds.
pub proof fn lemma_time_of_day(secs: nat)
    ensures
        ({
            let rem = secs % 86400;
            &&& rem / 3600 < 24
            &&& (rem % 3600) / 60 < 60
            &&& rem % 60 < 60
            &&& secs == 86400 * (secs / 86400) + 3600 * (rem / 3600) + 60 * ((rem % 3600) / 60)
                + rem % 60
        }),
{
}

proof fn lemma_field(a: nat, b: nat, width: nat)
    requires
        width == 2 && a < 100 && b < 100 || width == 4 && a < 10000 && b < 10000,
    ensures
        zero_padded(a, width).len() == width,
        zero_padded(b, width).len() == width,
        a < b ==> lex_less(zero_padded(a, width), zero_padded(b, width)),
{
    lemma_zero_padded_width(a, width);
    lemma_zero_padded_width(b, width);
    if a < b {
        lemma_zero_padded_ordered(a, b, width);
    }
}

/// Fields in lexicographic order (year first, second last) give texts in lexicographic order,
/// as long as the year has at most four digits.
pub proof fn lemma_stamp_ordered(
    y1: nat, m1: nat, d1: nat, h1: nat, i1: nat, s1: nat,
    y2: nat, m2: nat, d2: nat, h2: nat, i2: nat, s2: nat,
)
    requires
        y1 < 10000 && y2 < 10000,
        m1 < 100 && m2 < 100 && d1 < 100 && d2 < 100 && h1 < 100 && h2 < 100,
        i1 < 100 && i2 < 100 && s1 < 100 && s2 < 100,
        y1 < y2 || (y1 == y2 && (m1 < m2 || (m1 == m2 && (d1 < d2 || (d1 == d2 && (h1 < h2 || (h1
            == h2 && (i1 < i2 || (i1 == i2 && s1 < s2))))))))),
    ensures
        lex_less(stamp_text(y1, m1, d1, h1, i1, s1), stamp_text(y2, m2, d2, h2, i2, s2)),
{
    lemma_field(y1, y2, 4);
    lemma_field(m1, m2, 2);
    lemma_field(d1, d2, 2);
    lemma_field(h1, h2, 2);
    lemma_field(i1, i2, 2);
    lemma_field(s1, s2, 2);
    let a = zero_padded(y1, 4);
    let b = zero_padded(y2, 4);
    lemma_lex_step(a, b, seq!['-'], seq!['-']);
    let (a, b) = (a + seq!['-'], b + seq!['-']);
    lemma_lex_step(a, b, zero_padded(m1, 2), zero_padded(m2, 2));
    let (a, b) = (a + zero_padded(m1, 2), b + zero_padded(m2, 2));
    lemma_lex_step(a, b, seq!['-'], seq!['-']);
    let (a, b) = (a + seq!['-'], b + seq!['-']);
    lemma_lex_step(a, b, zero_padded(d1, 2), zero_padded(d2, 2));
    let (a, b) = (a + zero_padded(d1, 2), b + zero_padded(d2, 2));
    lemma_lex_step(a, b, seq![' '], seq![' ']);
    let (a, b) = (a + seq![' '], b + seq![' ']);
    lemma_lex_step(a, b, zero_padded(h1, 2), zero_padded(h2, 2));
    let (a, b) = (a + zero_padded(h1, 2), b + zero_padded(h2, 2));
    lemma_lex_step(a, b, seq![':'], seq![':']);
    let (a, b) = (a + seq![':'], b + seq![':']);
    lemma_lex_step(a, b, zero_padded(i1, 2), zero_padded(i2, 2));
    let (a, b) = (a + zero_padded(i1, 2), b + zero_padded(i2, 2));
    lemma_lex_step(a, b, seq![':'], seq![':']);
    let (a, b) = (a + seq![':'], b + seq![':']);
    lemma_lex_step(a, b, zero_padded(s1, 2), zero_padded(s2, 2));
    let (a, b) = (a + zero_padded(s1, 2), b + zero_padded(s2, 2));
    assert(lex_less(a, b));
    lemma_lex_step(a, b, seq![' ', 'U', 'T', 'C'], seq![' ', 'U', 'T', 'C']);
}

/// A later day has a later date.
pub proof fn lemma_dates_ordered(y1: int, m1: int, d1: int, y2: int, m2: int, d2: int)
    requires
        is_valid_date(y1, m1, d1),
        is_valid_date(y2, m2, d2),
        epoch_day(y1, m1, d1) < epoch_day(y2, m2, d2),
    ensures
        y1 < y2 || (y1 == y2 && (m1 < m2 || (m1 == m2 && d1 < d2))),
{
    lemma_day_in_year(y1, m1, d1);
    lemma_day_in_year(y2, m2, d2);
    if y2 < y1 {
        lemma_days_before_year_grows(y2, y1);
    } else if y1 == y2 {
        lemma_days_before_month(y1, m1);
        lemma_days_before_month(y1, m2);
    }
}

proof fn lemma_year_below_10000(days: int)
    requires
        0 <= days < 2932897,
    ensures
        date_of_day(days).0 < 10000,
{
    lemma_date_of_day(days);
    let (y, m, d) = date_of_day(days);
    lemma_day_in_year(y, m, d);
    lemma_days_before_year(10000);
    if y > 10000 {
        lemma_days_before_year_grows(10000, y);
    }
}

/// A later instant, before the year 10000, gives a timestamp that comes later in
/// lexicographic order; so distinct instants give distinct timestamps.
pub proof fn lemma_timestamps_ordered(earlier: nat, later: nat)
    requires
        earlier < later < 253402300800,
    ensures
        lex_less(timestamp_text(earlier), timestamp_text(later)),
{
    let (da, db) = ((earlier / 86400) as int, (later / 86400) as int);
    assert(da <= db < 2932897);
    lemma_date_of_day(da);
    lemma_date_of_day(db);
    lemma_year_below_10000(da);
    lemma_year_below_10000(db);
    lemma_time_of_day(earlier);
    lemma_time_of_day(later);
    let (y1, m1, d1) = date_of_day(da);
    let (y2, m2, d2) = date_of_day(db);
    let (ra, rb) = (earlier % 86400, later % 86400);
    if da < db {
        lemma_dates_ordered(y1, m1, d1, y2, m2, d2);
    } else {
        assert(ra < rb);
    }
    lemma_stamp_ordered(
        y1 as nat,
        m1 as nat,
        d1 as nat,
        ra / 3600,
        (ra % 3600) / 60,
        ra % 60,
        y2 as nat,
        m2 as nat,
        d2 as nat,
        rb / 3600,
        (rb % 3600) / 60,
        rb % 60,
    );
}

/// The date of day `days` after 1970-01-01, as (year, month, day).
fn civil_from_days(days: u64) -> (date: (u64, u64, u64))
    requires
        days <= u64::MAX / 86400,
    ensures
        (date.0 as int, date.1 as int, date.2 as int) == date_of_day(days as int),
{
    proof {
        lemma_date_of_day_is_civil(days as int);
    }
    let z: u64 = days + 719_468;
    let era: u64 = z / 146_097;
    let doe: u64 = z - era * 146_097;
    proof {
        lemma_year_of_era(doe as int);
    }
    let yoe: u64 = (doe - doe / 1_460 + doe / 36_524 - doe / 146_096) / 365;
    let doy: u64 = doe - (365 * yoe + yoe / 4 - yoe / 100);
    proof {
        lemma_month_of(doy as int, is_leap(yoe + 1));
    }
    let mp: u64 = (5 * doy + 2) / 153;
    let day: u64 = doy - (153 * mp + 2) / 5 + 1;
    let month: u64 = if mp < 10 {
        mp + 3
    } else {
        mp - 9
    };
    let year: u64 = yoe + era * 400;
    let year: u64 = if month <= 2 {
        year + 1
    } else {
        year
    };
    (year, month, day)
}

/// Formats `secs` seconds after 1970-01-01 00:00:00 UTC as `YYYY-MM-DD HH:MM:SS UTC`.
pub fn utc_timestamp(secs: u64) -> (text: String)
    ensures
        text@ == timestamp_text(secs as nat),
{
    let days: u64 = secs / 86_400;
    let rem: u64 = secs % 86_400;
    let hour: u64 = rem / 3_600;
    let minute: u64 = (rem % 3_600) / 60;
    let second: u64 = rem % 60;
    let (year, month, day) = civil_from_days(days);

    let mut out = String::new();
    push_zero_padded(&mut out, year, 4);
    push_char(&mut out, '-');
    push_zero_padded(&mut out, month, 2);
    push_char(&mut out, '-');
    push_zero_padded(&mut out, day, 2);
    push_char(&mut out, ' ');
    push_zero_padded(&mut out, hour, 2);
    push_char(&mut out, ':');
    push_zero_padded(&mut out, minute, 2);
    push_char(&mut out, ':');
    push_zero_padded(&mut out, second, 2);
    push_char(&mut out, ' ');
    push_char(&mut out, 'U');
    push_char(&mut out, 'T');
    push_char(&mut out, 'C');
    assert(out@ =~= timestamp_text(secs as nat));
    out
}

} // verus!
