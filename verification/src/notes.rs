//! What a run has to say for itself: how long it took, when it started, and the account it
//! leaves in its folder.

use vstd::prelude::*;

use crate::text::{chars_of, decimal, decimal_spec, padded, padded_spec};

verus! {

/// A duration the way people write them: `2h 14m 09s`, `14m 09s`, `42s`.
pub open spec fn duration_text(seconds: nat) -> Seq<char> {
    let hours = seconds / 3600;
    let minutes = (seconds % 3600) / 60;
    let rest = seconds % 60;
    if hours > 0 {
        decimal_spec(hours) + "h "@ + padded_spec(minutes, 2) + "m "@ + padded_spec(rest, 2) + "s"@
    } else if minutes > 0 {
        decimal_spec(minutes) + "m "@ + padded_spec(rest, 2) + "s"@
    } else {
        decimal_spec(rest) + "s"@
    }
}

/// A duration of `h` hours, `m` minutes and `s` seconds reads as those parts: hours when there
/// are any, then minutes and seconds as two digits each; minutes and two-digit seconds under an
/// hour; bare seconds under a minute.
pub proof fn law_a_duration_reads_as_its_parts(h: nat, m: nat, s: nat)
    requires
        m < 60,
        s < 60,
    ensures
        h > 0 ==> duration_text(3600 * h + 60 * m + s) == decimal_spec(h) + "h "@ + padded_spec(m, 2)
            + "m "@ + padded_spec(s, 2) + "s"@,
        h == 0 && m > 0 ==> duration_text(3600 * h + 60 * m + s) == decimal_spec(m) + "m "@
            + padded_spec(s, 2) + "s"@,
        h == 0 && m == 0 ==> duration_text(3600 * h + 60 * m + s) == decimal_spec(s) + "s"@,
{
    let t = 3600 * h + 60 * m + s;
    assert(t / 3600 == h);
    assert((t % 3600) / 60 == m);
    assert(t % 60 == s);
}

/// A duration of `seconds` the way people write them: `2h 14m 09s`, `14m 09s`, `42s`.
pub fn human_duration(seconds: u64) -> (out: String)
    ensures
        out@ == duration_text(seconds as nat),
{
    let hours = seconds / 3600;
    let minutes = (seconds % 3600) / 60;
    let rest = seconds % 60;
    let mut out = String::new();
    if hours > 0 {
        out.append(decimal(hours).as_str());
        out.append("h ");
        out.append(padded(minutes, 2).as_str());
        out.append("m ");
        out.append(padded(rest, 2).as_str());
        out.append("s");
    } else if minutes > 0 {
        out.append(decimal(minutes).as_str());
        out.append("m ");
        out.append(padded(rest, 2).as_str());
        out.append("s");
    } else {
        out.append(decimal(rest).as_str());
        out.append("s");
    }
    assert(out@ =~= duration_text(seconds as nat));
    out
}

/// How the date a count of days since 1970-01-01 falls on is worked out, as year, month and day:
/// counting from March, so a leap day lands at the end of a four hundred year era rather than in
/// the middle of one. That this is [`date_of`] is proved below.
spec fn civil(days: int) -> (int, int, int) {
    let era_days = days + 719_468;
    let era = era_days / 146_097;
    let day_of_era = era_days % 146_097;
    let year_of_era = (day_of_era - day_of_era / 1460 + day_of_era / 36_524 - day_of_era / 146_096)
        / 365;
    let day_of_year = day_of_era - (365 * year_of_era + year_of_era / 4 - year_of_era / 100);
    let month_of = (5 * day_of_year + 2) / 153;
    let day = day_of_year - (153 * month_of + 2) / 5 + 1;
    let month = if month_of < 10 {
        month_of + 3
    } else {
        month_of - 9
    };
    let year = year_of_era + era * 400 + if month <= 2 {
        1int
    } else {
        0int
    };
    (year, month, day)
}

proof fn lemma_year_back(c: int, q: int, p: int, r: int)
    requires
        0 <= c < 4,
        0 <= q < 25,
        0 <= p < 4,
        0 <= r < 365 + if p == 3 && (q != 24 || c == 3) { 1int } else { 0int },
    ensures
        ({
            let doe = 36_524 * c + 1461 * q + 365 * p + r;
            (doe - doe / 1460 + doe / 36_524 - doe / 146_096) / 365 == 100 * c + 4 * q + p
        }),
{
    let doe = 36_524 * c + 1461 * q + 365 * p + r;
    assert(doe / 146_096 == if c == 3 && q == 24 && p == 3 && r == 365 { 1int } else { 0int });
    assert(doe / 36_524 == c || (c == 3 && doe / 36_524 == 4));
}

/// Whether `year` has a 29th of February: every fourth year, but not every hundredth, unless
/// it is every four hundredth.
pub open spec fn leap(year: int) -> bool {
    (year % 4 == 0 && year % 100 != 0) || year % 400 == 0
}

/// How many days `year` has.
pub open spec fn year_days(year: int) -> int {
    if leap(year) {
        366
    } else {
        365
    }
}

/// How many days month `month` of `year` has.
pub open spec fn month_days(year: int, month: int) -> int {
    if month == 2 {
        if leap(year) {
            29
        } else {
            28
        }
    } else if month == 4 || month == 6 || month == 9 || month == 11 {
        30
    } else {
        31
    }
}

/// How many days lie between 1970-01-01 and the first of January of `year`: negative before
/// 1970.
pub open spec fn days_before_year(year: int) -> int
    decreases (if year >= 1970 {
        year - 1970
    } else {
        1970 - year
    }),
{
    if year == 1970 {
        0
    } else if year > 1970 {
        days_before_year(year - 1) + year_days(year - 1)
    } else {
        days_before_year(year + 1) - year_days(year)
    }
}

/// How many days of `year` come before the first of month `month`.
pub open spec fn days_before_month(year: int, month: int) -> int
    decreases month,
{
    if month <= 1 {
        0
    } else {
        days_before_month(year, month - 1) + month_days(year, month - 1)
    }
}

/// Whether `(year, month, day)` is a date: a month of the year, and a day of that month.
pub open spec fn is_date(year: int, month: int, day: int) -> bool {
    1 <= month <= 12 && 1 <= day <= month_days(year, month)
}

/// How many days after 1970-01-01 a date is.
pub open spec fn day_number(year: int, month: int, day: int) -> int {
    days_before_year(year) + days_before_month(year, month) + day - 1
}

/// The leap years from year one up to `year`, counted.
spec fn leaps_to(year: int) -> int {
    year / 4 - year / 100 + year / 400
}

/// Counting one more year counts one more leap year exactly when that year is one.
proof fn lemma_leaps_step(year: int)
    ensures
        leaps_to(year) - leaps_to(year - 1) == if leap(year) { 1int } else { 0int },
{
    let a = year / 400;
    let b = year % 400;
    assert(year == 400 * a + b);
    assert(year / 4 == 100 * a + b / 4);
    assert(year / 100 == 4 * a + b / 100);
    assert(year / 400 == a);
    if b == 0 {
        assert((year - 1) / 4 == 100 * a - 1);
        assert((year - 1) / 100 == 4 * a - 1);
        assert((year - 1) / 400 == a - 1);
    } else {
        assert(year - 1 == 400 * a + (b - 1));
        assert((year - 1) / 4 == 100 * a + (b - 1) / 4);
        assert((year - 1) / 100 == 4 * a + (b - 1) / 100);
        assert((year - 1) / 400 == a);
    }
}

/// The days before a year, in closed form.
proof fn lemma_days_before_year(year: int)
    ensures
        days_before_year(year) == 365 * (year - 1970) + leaps_to(year - 1) - 477,
    decreases (if year >= 1970 {
        year - 1970
    } else {
        1970 - year
    }),
{
    if year > 1970 {
        lemma_days_before_year(year - 1);
        lemma_leaps_step(year - 1);
    } else if year < 1970 {
        lemma_days_before_year(year + 1);
        lemma_leaps_step(year);
    }
}

/// The days before a month, in closed form, counting from March as [`civil`] does.
proof fn lemma_days_before_month(year: int, month: int)
    requires
        1 <= month <= 12,
    ensures
        days_before_month(year, month) == if month <= 2 {
            31 * (month - 1)
        } else {
            59 + (if leap(year) { 1int } else { 0int }) + (153 * (month - 3) + 2) / 5
        },
{
    reveal_with_fuel(days_before_month, 13);
}

/// A day of a four hundred year era, taken apart into its century, its four-year cycle in the
/// century, its year in the cycle, and its day in the year (all counted from March).
proof fn lemma_era_parts(doe: int) -> (parts: (int, int, int, int))
    requires
        0 <= doe < 146_097,
    ensures
        0 <= parts.0 < 4,
        0 <= parts.1 < 25,
        0 <= parts.2 < 4,
        0 <= parts.3 < 365 + if parts.2 == 3 && (parts.1 != 24 || parts.0 == 3) {
            1int
        } else {
            0int
        },
        doe == 36_524 * parts.0 + 1461 * parts.1 + 365 * parts.2 + parts.3,
{
    let c = if doe / 36_524 < 4 {
        doe / 36_524
    } else {
        3
    };
    let rc = doe - 36_524 * c;
    let q = if rc / 1461 < 25 {
        rc / 1461
    } else {
        24
    };
    let rq = rc - 1461 * q;
    let p = if rq / 365 < 4 {
        rq / 365
    } else {
        3
    };
    let r = rq - 365 * p;
    (c, q, p, r)
}

/// Day `r` of a year counted from March, as the month and day [`civil`] makes of it, is a day of
/// that month, `r` days after the first of March.
proof fn lemma_month_parts(r: int, leap_day: bool)
    requires
        0 <= r < 365 + if leap_day { 1int } else { 0int },
    ensures
        ({
            let mp = (5 * r + 2) / 153;
            let day = r - (153 * mp + 2) / 5 + 1;
            let month = if mp < 10 {
                mp + 3
            } else {
                mp - 9
            };
            &&& 0 <= mp < 12
            &&& 1 <= month <= 12
            &&& 1 <= day
            &&& day <= if month == 2 {
                if leap_day {
                    29int
                } else {
                    28int
                }
            } else if month == 4 || month == 6 || month == 9 || month == 11 {
                30int
            } else {
                31int
            }
            &&& (153 * mp + 2) / 5 + day - 1 == r
        }),
{
}

/// The date [`civil`] makes of a count of days is a date, and it is that many days after
/// 1970-01-01 (before it, for a negative count).
proof fn lemma_civil_is_the_date(days: int)
    ensures
        is_date(civil(days).0, civil(days).1, civil(days).2),
        day_number(civil(days).0, civil(days).1, civil(days).2) == days,
{
    let z = days + 719_468;
    let era = z / 146_097;
    let doe = z % 146_097;
    let (c, q, p, r) = lemma_era_parts(doe);
    lemma_year_back(c, q, p, r);
    let y = 100 * c + 4 * q + p;
    let yoe = (doe - doe / 1460 + doe / 36_524 - doe / 146_096) / 365;
    assert(yoe == y);
    assert(y / 4 == 25 * c + q);
    assert(y / 100 == c);
    let doy = doe - (365 * yoe + yoe / 4 - yoe / 100);
    assert(doy == r);
    let leap_day = p == 3 && (q != 24 || c == 3);
    lemma_month_parts(r, leap_day);
    let (year, month, day) = civil(days);
    let mp = (5 * r + 2) / 153;
    assert(year == 400 * era + y + if month <= 2 { 1int } else { 0int });
    assert(z == 146_097 * era + doe);
    lemma_days_before_year(year);
    lemma_days_before_month(year, month);
    let base = 400 * era + y;
    assert(leaps_to(base) == 97 * era + 25 * c + q - c) by {
        assert(base / 4 == 100 * era + 25 * c + q);
        assert(base / 100 == 4 * era + c);
        assert(base / 400 == era);
    }
    lemma_leaps_step(base);
    lemma_leaps_step(base + 1);
    if month <= 2 {
        assert(leap(year) == leap_day);
        assert(mp >= 10);
    } else {
        assert(month == mp + 3);
        assert(year == base);
    }
}

/// Each year starts as many days after the one before as that one has.
proof fn lemma_next_year(year: int)
    ensures
        days_before_year(year + 1) == days_before_year(year) + year_days(year),
{
    lemma_days_before_year(year);
    lemma_days_before_year(year + 1);
    lemma_leaps_step(year);
}

/// A later year starts no earlier.
proof fn lemma_years_in_order(a: int, b: int)
    requires
        a <= b,
    ensures
        days_before_year(a) <= days_before_year(b),
    decreases b - a,
{
    if a < b {
        lemma_years_in_order(a, b - 1);
        lemma_next_year(b - 1);
    }
}

/// A later month of a year starts no earlier, and none starts after the year ends.
proof fn lemma_months_in_order(year: int, a: int, b: int)
    requires
        1 <= a <= b <= 13,
    ensures
        days_before_month(year, a) <= days_before_month(year, b),
        days_before_month(year, 13) == year_days(year),
    decreases b - a,
{
    reveal_with_fuel(days_before_month, 14);
    if a < b {
        lemma_months_in_order(year, a, b - 1);
    }
}

/// A date falls within its year.
proof fn lemma_within_year(year: int, month: int, day: int)
    requires
        is_date(year, month, day),
    ensures
        days_before_year(year) <= day_number(year, month, day) < days_before_year(year) + year_days(
            year,
        ),
{
    lemma_months_in_order(year, month + 1, 13);
    lemma_months_in_order(year, 1, month);
    assert(days_before_month(year, month + 1) == days_before_month(year, month) + month_days(year, month));
}

/// Two dates the same number of days after 1970-01-01 are the same date.
pub proof fn law_one_date_per_day(a: (int, int, int), b: (int, int, int))
    requires
        is_date(a.0, a.1, a.2),
        is_date(b.0, b.1, b.2),
        day_number(a.0, a.1, a.2) == day_number(b.0, b.1, b.2),
    ensures
        a == b,
{
    lemma_within_year(a.0, a.1, a.2);
    lemma_within_year(b.0, b.1, b.2);
    if a.0 < b.0 {
        lemma_next_year(a.0);
        lemma_years_in_order(a.0 + 1, b.0);
    } else if b.0 < a.0 {
        lemma_next_year(b.0);
        lemma_years_in_order(b.0 + 1, a.0);
    } else if a.1 < b.1 {
        lemma_months_in_order(a.0, a.1 + 1, b.1);
        assert(days_before_month(a.0, a.1 + 1) == days_before_month(a.0, a.1) + month_days(a.0, a.1));
    } else if b.1 < a.1 {
        lemma_months_in_order(a.0, b.1 + 1, a.1);
        assert(days_before_month(a.0, b.1 + 1) == days_before_month(a.0, b.1) + month_days(a.0, b.1));
    }
}

/// The date `days` days after 1970-01-01 (before it, for a negative count): the one date whose
/// [`day_number`] that is.
pub open spec fn date_of(days: int) -> (int, int, int) {
    choose|date: (int, int, int)| is_date(date.0, date.1, date.2) && day_number(date.0, date.1, date.2) == days
}

/// [`civil`] works out [`date_of`], and [`date_of`] is a date that many days after 1970-01-01.
proof fn lemma_civil_is_date_of(days: int)
    ensures
        civil(days) == date_of(days),
        is_date(date_of(days).0, date_of(days).1, date_of(days).2),
        day_number(date_of(days).0, date_of(days).1, date_of(days).2) == days,
{
    lemma_civil_is_the_date(days);
    let c = civil(days);
    assert(is_date(c.0, c.1, c.2) && day_number(c.0, c.1, c.2) == days);
    let d = date_of(days);
    law_one_date_per_day(c, d);
}

/// Every count of days has its date: [`date_of`] is a date, that many days after 1970-01-01.
pub proof fn law_every_day_has_a_date(days: int)
    ensures
        is_date(date_of(days).0, date_of(days).1, date_of(days).2),
        day_number(date_of(days).0, date_of(days).1, date_of(days).2) == days,
{
    lemma_civil_is_date_of(days);
}

/// A moment as `yyyymmdd-hhmmss`, in UTC, from seconds since 1970.
pub open spec fn stamp_text(seconds: nat) -> Seq<char> {
    let days = seconds / 86_400;
    let rest = seconds % 86_400;
    let (year, month, day) = date_of(days as int);
    padded_spec(year as nat, 4) + padded_spec(month as nat, 2) + padded_spec(day as nat, 2) + "-"@
        + padded_spec(rest / 3600, 2) + padded_spec((rest % 3600) / 60, 2) + padded_spec(
        rest % 60,
        2,
    )
}

/// The date part, worked out in numbers small enough to be exact.
fn civil_of(days: u64) -> (out: (u64, u64, u64))
    requires
        days <= u64::MAX / 86_400,
    ensures
        out.0 as int == date_of(days as int).0,
        out.1 as int == date_of(days as int).1,
        out.2 as int == date_of(days as int).2,
{
    let era_days = days + 719_468;
    let era = era_days / 146_097;
    let day_of_era = era_days % 146_097;
    let year_of_era = (day_of_era - day_of_era / 1460 + day_of_era / 36_524 - day_of_era / 146_096)
        / 365;
    proof {
        assert(day_of_era / 1460 <= day_of_era);
        assert(year_of_era <= 400) by (nonlinear_arith)
            requires
                day_of_era < 146_097,
                year_of_era == (day_of_era - day_of_era / 1460 + day_of_era / 36_524 - day_of_era
                    / 146_096) / 365,
        ;
        assert(365 * year_of_era + year_of_era / 4 - year_of_era / 100 <= day_of_era) by (nonlinear_arith)
            requires
                day_of_era < 146_097,
                year_of_era == (day_of_era - day_of_era / 1460 + day_of_era / 36_524 - day_of_era
                    / 146_096) / 365,
                day_of_era >= 0,
        ;
    }
    let day_of_year = day_of_era - (365 * year_of_era + year_of_era / 4 - year_of_era / 100);
    proof {
        assert(day_of_year <= 366) by (nonlinear_arith)
            requires
                day_of_era < 146_097,
                year_of_era == (day_of_era - day_of_era / 1460 + day_of_era / 36_524 - day_of_era
                    / 146_096) / 365,
                day_of_year == day_of_era - (365 * year_of_era + year_of_era / 4 - year_of_era
                    / 100),
        ;
    }
    let month_of = (5 * day_of_year + 2) / 153;
    proof {
        assert((153 * month_of + 2) / 5 <= day_of_year) by (nonlinear_arith)
            requires
                month_of == (5 * day_of_year + 2) / 153,
                day_of_year >= 0,
        ;
    }
    let day = day_of_year - (153 * month_of + 2) / 5 + 1;
    let month = if month_of < 10 {
        month_of + 3
    } else {
        month_of - 9
    };
    let year = year_of_era + era * 400 + if month <= 2 { 1 } else { 0 };
    proof {
        lemma_civil_is_date_of(days as int);
        assert(year as int == civil(days as int).0);
    }
    (year, month, day)
}

/// A moment as `yyyymmdd-hhmmss`, in UTC, from seconds since 1970.
pub fn stamp_at(seconds: u64) -> (out: String)
    ensures
        out@ == stamp_text(seconds as nat),
{
    let days = seconds / 86_400;
    let rest = seconds % 86_400;
    let (year, month, day) = civil_of(days);
    let mut out = String::new();
    out.append(padded(year, 4).as_str());
    out.append(padded(month, 2).as_str());
    out.append(padded(day, 2).as_str());
    out.append("-");
    out.append(padded(rest / 3600, 2).as_str());
    out.append(padded((rest % 3600) / 60, 2).as_str());
    out.append(padded(rest % 60, 2).as_str());
    assert(out@ =~= stamp_text(seconds as nat));
    out
}

/// The system clock's time.
#[verifier::external_type_specification]
#[verifier::external_body]
pub struct ExSystemTime(std::time::SystemTime);

/// What reading the clock gives when it reads earlier than the epoch.
#[verifier::external_type_specification]
#[verifier::external_body]
pub struct ExSystemTimeError(std::time::SystemTimeError);

/// Calls `SystemTime::now`. What it returns is whatever the clock reads, so nothing is said of
/// it.
#[verifier::external_body]
fn clock_now() -> std::time::SystemTime {
    std::time::SystemTime::now()
}

/// Calls `SystemTime::duration_since` with `UNIX_EPOCH`: how long after 1970 `time` is, or an
/// error when it is earlier. Nothing is said of which, since it depends on the clock.
#[verifier::external_body]
fn since_epoch(time: std::time::SystemTime) -> Result<
    std::time::Duration,
    std::time::SystemTimeError,
> {
    time.duration_since(std::time::UNIX_EPOCH)
}

/// Calls `Duration::as_secs`: the whole seconds of a duration. Durations here come from the
/// clock, so nothing is said of them or of this.
#[verifier::external_body]
fn whole_seconds(duration: &std::time::Duration) -> u64 {
    duration.as_secs()
}

/// The moment a run started, as `yyyymmdd-hhmmss` in UTC, for naming the folder it writes: the
/// seconds since 1970 from the system clock, or the epoch itself if the clock reads earlier.
///
/// Written out by hand rather than by pulling in a calendar crate, since the whole of what is
/// wanted is a name that sorts in the order the runs happened.
pub fn stamp() -> (out: String)
    ensures
        exists|seconds: nat| out@ == stamp_text(seconds),
{
    let seconds = match since_epoch(clock_now()) {
        Ok(since) => whole_seconds(&since),
        Err(_) => 0,
    };
    stamp_at(seconds)
}

/// Whether a piece after the last underscore looks like a stamp: not empty, only digits and
/// dashes, and at least one digit.
pub open spec fn stamp_like(piece: Seq<char>) -> bool {
    &&& piece.len() > 0
    &&& forall|i: int| 0 <= i < piece.len() ==> ('0' <= #[trigger] piece[i] <= '9' || piece[i] == '-')
    &&& exists|i: int| 0 <= i < piece.len() && '0' <= #[trigger] piece[i] <= '9'
}

/// Where the last underscore is, if there is one.
pub open spec fn last_underscore(text: Seq<char>) -> Option<int>
    decreases text.len(),
{
    if text.len() == 0 {
        None
    } else if text.last() == '_' {
        Some(text.len() - 1)
    } else {
        last_underscore(text.drop_last())
    }
}

/// A name with any trailing stamps taken off, one underscore-separated piece at a time.
pub open spec fn unstamped(text: Seq<char>) -> Seq<char>
    decreases text.len(),
{
    match last_underscore(text) {
        Some(at) => if 0 <= at < text.len() && stamp_like(text.subrange(at + 1, text.len() as int)) {
            unstamped(text.subrange(0, at))
        } else {
            text
        },
        None => text,
    }
}

/// A name with any trailing `stamp()` taken off: `xmodel_20260819-174052` to `xmodel`.
///
/// A trailing trim rather than a split on the first underscore, because plenty of pool names
/// carry one: `sound_asset` would otherwise come back as `sound`.
pub fn strip_stamp(stem: &str) -> (out: &str)
    ensures
        out@ == unstamped(stem@),
{
    let chars = chars_of(stem);
    let mut cut: usize = chars.len();
    proof {
        assert(chars@.subrange(0, cut as int) =~= stem@);
    }
    loop
        invariant
            cut <= chars@.len(),
            chars@ == stem@,
            unstamped(chars@.subrange(0, cut as int)) == unstamped(stem@),
        ensures
            cut <= chars@.len(),
            unstamped(chars@.subrange(0, cut as int)) == unstamped(stem@),
            unstamped(chars@.subrange(0, cut as int)) == chars@.subrange(0, cut as int),
        decreases cut,
    {
        let ghost text = chars@.subrange(0, cut as int);
        // The last underscore before the cut.
        let mut at = cut;
        while at > 0 && chars[at - 1] != '_'
            invariant
                at <= cut <= chars@.len(),
                text == chars@.subrange(0, cut as int),
                last_underscore(text) == last_underscore(chars@.subrange(0, at as int)),
            decreases at,
        {
            assert(chars@.subrange(0, at as int).drop_last() =~= chars@.subrange(0, at - 1));
            at = at - 1;
        }
        if at == 0 {
            assert(last_underscore(chars@.subrange(0, 0)) is None);
            assert(unstamped(text) == text);
            break;
        }
        let under = at - 1;
        proof {
            assert(chars@.subrange(0, at as int).last() == '_');
            assert(last_underscore(text) == Some(under as int));
        }
        // Whether what follows it is all digits and dashes, with a digit among them.
        let mut digits = false;
        let mut only = true;
        let mut k = at;
        while k < cut
            invariant
                at <= k <= cut <= chars@.len(),
                only == forall|j: int|
                    at <= j < k ==> ('0' <= #[trigger] chars@[j] <= '9' || chars@[j] == '-'),
                digits == exists|j: int| at <= j < k && '0' <= #[trigger] chars@[j] <= '9',
            decreases cut - k,
        {
            let c = chars[k];
            if !(('0' <= c && c <= '9') || c == '-') {
                only = false;
            }
            if '0' <= c && c <= '9' {
                digits = true;
            }
            k = k + 1;
        }
        let ghost piece = text.subrange(at as int, cut as int);
        proof {
            assert forall|j: int| 0 <= j < piece.len() implies #[trigger] piece[j] == chars@[at + j] by {}
            if only {
                assert forall|j: int| 0 <= j < piece.len() implies ('0' <= #[trigger] piece[j] <= '9'
                    || piece[j] == '-') by {
                    assert(piece[j] == chars@[at + j]);
                }
            } else {
                let j = choose|j: int| at <= j < cut && !('0' <= #[trigger] chars@[j] <= '9' || chars@[j] == '-');
                assert(piece[j - at] == chars@[j]);
            }
            if digits {
                let j = choose|j: int| at <= j < cut && '0' <= #[trigger] chars@[j] <= '9';
                assert(piece[j - at] == chars@[j]);
            } else {
                assert forall|j: int| 0 <= j < piece.len() implies !('0' <= #[trigger] piece[j] <= '9') by {
                    assert(piece[j] == chars@[at + j]);
                }
            }
            assert(stamp_like(piece) == (at < cut && only && digits));
        }
        if !(at < cut && only && digits) {
            assert(unstamped(text) == text);
            break;
        }
        proof {
            assert(text.subrange(0, under as int) =~= chars@.subrange(0, under as int));
        }
        cut = under;
    }
    stem.substring_char(0, cut)
}

/// What a run has to say for itself, beyond the names it found.
///
/// A submission that says only "430 names" teaches the next contributor nothing. So a run
/// records what it was: the method, the inputs, what those inputs measured, how much ground it
/// covered, and the fingerprint that lets the next person recognise the same search.
pub struct RunNote {
    method: String,
    what: String,
    took: u64,
    /// Which operating system and architecture the run happened on.
    platform: String,
    /// Which engine actually did the confirming: `CPU`, or a device.
    compute: String,
    fingerprint: Option<String>,
    measurements: Vec<(String, String)>,
    next: Option<String>,
}

/// The lines a note's measurements make.
pub open spec fn measurement_lines(measurements: Seq<(String, String)>) -> Seq<char>
    decreases measurements.len(),
{
    if measurements.len() == 0 {
        Seq::empty()
    } else {
        measurement_lines(measurements.drop_last()) + "- "@ + measurements.last().0@ + ": "@
            + measurements.last().1@ + "\n"@
    }
}

impl RunNote {
    pub closed spec fn method_text(&self) -> Seq<char> {
        self.method@
    }

    pub closed spec fn what_text(&self) -> Seq<char> {
        self.what@
    }

    pub closed spec fn took_seconds(&self) -> nat {
        self.took as nat
    }

    pub closed spec fn platform_text(&self) -> Seq<char> {
        self.platform@
    }

    pub closed spec fn compute_text(&self) -> Seq<char> {
        self.compute@
    }

    pub closed spec fn fingerprint_text(&self) -> Option<Seq<char>> {
        match self.fingerprint {
            Some(value) => Some(value@),
            None => None,
        }
    }

    pub closed spec fn measurement_list(&self) -> Seq<(String, String)> {
        self.measurements@
    }

    pub closed spec fn next_text(&self) -> Option<Seq<char>> {
        match self.next {
            Some(value) => Some(value@),
            None => None,
        }
    }

    /// The whole account, as it is written into the run's folder.
    pub open spec fn rendered(&self) -> Seq<char> {
        "- method: "@ + self.method_text() + "\n- what it does: "@ + self.what_text()
            + "\n- ran for: "@ + duration_text(self.took_seconds()) + "\n- platform: "@
            + self.platform_text() + "\n- confirmed on: "@ + self.compute_text() + "\n"@
            + measurement_lines(self.measurement_list()) + match self.fingerprint_text() {
            Some(value) => "- fingerprint: "@ + value + "\n"@,
            None => Seq::empty(),
        } + match self.next_text() {
            Some(value) => "\n**Next:** "@ + value + "\n"@,
            None => Seq::empty(),
        }
    }

    /// A note for a run of `method`, doing `what`, that took `took` seconds on `platform`,
    /// confirmed on the processor until said otherwise.
    pub fn new(method: String, what: String, took: u64, platform: String) -> (note: Self)
        ensures
            note.method_text() == method@,
            note.what_text() == what@,
            note.took_seconds() == took,
            note.platform_text() == platform@,
            note.compute_text() == "CPU"@,
            note.fingerprint_text() is None,
            note.measurement_list().len() == 0,
            note.next_text() is None,
    {
        RunNote {
            method,
            what,
            took,
            platform,
            compute: "CPU".to_owned(),
            fingerprint: None,
            measurements: Vec::new(),
            next: None,
        }
    }

    /// Which engine confirmed these names.
    pub fn computed_on(self, backend: String) -> (note: Self)
        ensures
            note.compute_text() == backend@,
            note.method_text() == self.method_text(),
            note.what_text() == self.what_text(),
            note.took_seconds() == self.took_seconds(),
            note.platform_text() == self.platform_text(),
            note.fingerprint_text() == self.fingerprint_text(),
            note.measurement_list() == self.measurement_list(),
            note.next_text() == self.next_text(),
    {
        RunNote { compute: backend, ..self }
    }

    /// The digest of everything that decided what this pass would find.
    pub fn fingerprint(self, value: String) -> (note: Self)
        ensures
            note.fingerprint_text() == Some(value@),
            note.compute_text() == self.compute_text(),
            note.method_text() == self.method_text(),
            note.what_text() == self.what_text(),
            note.took_seconds() == self.took_seconds(),
            note.platform_text() == self.platform_text(),
            note.measurement_list() == self.measurement_list(),
            note.next_text() == self.next_text(),
    {
        RunNote { fingerprint: Some(value), ..self }
    }

    /// A number worth carrying: candidates, seeds, throughput, how much was already known.
    pub fn measured(self, label: String, value: String) -> (note: Self)
        ensures
            note.measurement_list().len() == self.measurement_list().len() + 1,
            note.measurement_list().drop_last() == self.measurement_list(),
            note.measurement_list().last().0@ == label@,
            note.measurement_list().last().1@ == value@,
            note.fingerprint_text() == self.fingerprint_text(),
            note.compute_text() == self.compute_text(),
            note.method_text() == self.method_text(),
            note.what_text() == self.what_text(),
            note.took_seconds() == self.took_seconds(),
            note.platform_text() == self.platform_text(),
            note.next_text() == self.next_text(),
    {
        let mut note = self;
        note.measurements.push((label, value));
        assert(note.measurements@.drop_last() =~= self.measurements@);
        note
    }

    /// What the person who reads this should try next, in one sentence.
    pub fn next_step(self, value: String) -> (note: Self)
        ensures
            note.next_text() == Some(value@),
            note.fingerprint_text() == self.fingerprint_text(),
            note.compute_text() == self.compute_text(),
            note.method_text() == self.method_text(),
            note.what_text() == self.what_text(),
            note.took_seconds() == self.took_seconds(),
            note.platform_text() == self.platform_text(),
            note.measurement_list() == self.measurement_list(),
    {
        RunNote { next: Some(value), ..self }
    }

    /// The account as it is written into the run's folder. The fingerprint line comes last and
    /// in exactly this spelling, because it is read back out of a pull request to warn the next
    /// contributor off a search already run to exhaustion.
    pub fn render(&self) -> (out: String)
        ensures
            out@ == self.rendered(),
    {
        let mut text = String::new();
        text.append("- method: ");
        text.append(self.method.as_str());
        text.append("\n- what it does: ");
        text.append(self.what.as_str());
        text.append("\n- ran for: ");
        text.append(human_duration(self.took).as_str());
        text.append("\n- platform: ");
        text.append(self.platform.as_str());
        text.append("\n- confirmed on: ");
        text.append(self.compute.as_str());
        text.append("\n");
        let ghost head = text@;
        let mut i: usize = 0;
        while i < self.measurements.len()
            invariant
                i <= self.measurements@.len(),
                text@ == head + measurement_lines(self.measurements@.take(i as int)),
            decreases self.measurements@.len() - i,
        {
            let (label, value) = (&self.measurements[i].0, &self.measurements[i].1);
            text.append("- ");
            text.append(label.as_str());
            text.append(": ");
            text.append(value.as_str());
            text.append("\n");
            assert(self.measurements@.take(i + 1).drop_last() =~= self.measurements@.take(i as int));
            assert(text@ =~= head + measurement_lines(self.measurements@.take(i + 1)));
            i = i + 1;
        }
        assert(self.measurements@.take(self.measurements@.len() as int) =~= self.measurements@);
        let ghost middle = text@;
        if let Some(fingerprint) = &self.fingerprint {
            text.append("- fingerprint: ");
            text.append(fingerprint.as_str());
            text.append("\n");
        }
        let ghost later = text@;
        if let Some(next) = &self.next {
            text.append("\n**Next:** ");
            text.append(next.as_str());
            text.append("\n");
        }
        assert(text@ =~= self.rendered());
        text
    }
}

/// Whether every character is a decimal digit or a dash.
pub open spec fn digits_or_dashes(text: Seq<char>) -> bool {
    forall|i: int| 0 <= i < text.len() ==> ('0' <= #[trigger] text[i] <= '9' || text[i] == '-')
}

/// A number in decimal is all digits.
proof fn lemma_decimal_digits(n: nat)
    ensures
        decimal_spec(n).len() > 0,
        forall|i: int| 0 <= i < decimal_spec(n).len() ==> '0' <= #[trigger] decimal_spec(n)[i] <= '9',
    decreases n,
{
    if n >= 10 {
        lemma_decimal_digits(n / 10);
        let head = decimal_spec(n / 10);
        assert forall|i: int| 0 <= i < decimal_spec(n).len() implies '0' <= #[trigger] decimal_spec(
            n,
        )[i] <= '9' by {
            if i < head.len() {
                assert(decimal_spec(n)[i] == head[i]);
            }
        }
    }
}

/// A padded number is all digits, and starts with one.
proof fn lemma_padded_digits(n: nat, width: nat)
    ensures
        padded_spec(n, width).len() > 0,
        digits_or_dashes(padded_spec(n, width)),
        '0' <= padded_spec(n, width)[0] <= '9',
{
    lemma_decimal_digits(n);
    let digits = decimal_spec(n);
    if digits.len() < width {
        let zeros = Seq::new((width - digits.len()) as nat, |i: int| '0');
        assert forall|i: int| 0 <= i < padded_spec(n, width).len() implies ('0'
            <= #[trigger] padded_spec(n, width)[i] <= '9' || padded_spec(n, width)[i] == '-') by {
            if i >= zeros.len() {
                assert(padded_spec(n, width)[i] == digits[i - zeros.len()]);
            }
        }
    } else {
        assert('0' <= digits[0] <= '9');
    }
}

/// Digits and dashes put together are digits and dashes.
proof fn lemma_digits_join(a: Seq<char>, b: Seq<char>)
    requires
        digits_or_dashes(a),
        digits_or_dashes(b),
    ensures
        digits_or_dashes(a + b),
{
    assert forall|i: int| 0 <= i < (a + b).len() implies ('0' <= #[trigger] (a + b)[i] <= '9' || (a
        + b)[i] == '-') by {
        if i < a.len() {
            assert((a + b)[i] == a[i]);
        } else {
            assert((a + b)[i] == b[i - a.len()]);
        }
    }
}

/// A stamp looks like a stamp.
proof fn lemma_stamp_like(seconds: nat)
    ensures
        stamp_like(stamp_text(seconds)),
{
    let days = seconds / 86_400;
    let rest = seconds % 86_400;
    let (year, month, day) = date_of(days as int);
    reveal_strlit("-");
    let parts = seq![
        padded_spec(year as nat, 4),
        padded_spec(month as nat, 2),
        padded_spec(day as nat, 2),
        "-"@,
        padded_spec(rest / 3600, 2),
        padded_spec((rest % 3600) / 60, 2),
        padded_spec(rest % 60, 2),
    ];
    lemma_padded_digits(year as nat, 4);
    lemma_padded_digits(month as nat, 2);
    lemma_padded_digits(day as nat, 2);
    lemma_padded_digits(rest / 3600, 2);
    lemma_padded_digits((rest % 3600) / 60, 2);
    lemma_padded_digits(rest % 60, 2);
    assert(digits_or_dashes("-"@));
    let a = padded_spec(year as nat, 4) + padded_spec(month as nat, 2);
    lemma_digits_join(padded_spec(year as nat, 4), padded_spec(month as nat, 2));
    let b = a + padded_spec(day as nat, 2);
    lemma_digits_join(a, padded_spec(day as nat, 2));
    let c = b + "-"@;
    lemma_digits_join(b, "-"@);
    let d = c + padded_spec(rest / 3600, 2);
    lemma_digits_join(c, padded_spec(rest / 3600, 2));
    let e = d + padded_spec((rest % 3600) / 60, 2);
    lemma_digits_join(d, padded_spec((rest % 3600) / 60, 2));
    let f = e + padded_spec(rest % 60, 2);
    lemma_digits_join(e, padded_spec(rest % 60, 2));
    assert(f == stamp_text(seconds));
    assert(f[0] == padded_spec(year as nat, 4)[0]);
}

/// The last underscore of a text that ends in an underscore and then none.
proof fn lemma_last_underscore_before(front: Seq<char>, back: Seq<char>)
    requires
        forall|i: int| 0 <= i < back.len() ==> back[i] != '_',
    ensures
        last_underscore(front + seq!['_'] + back) == Some(front.len() as int),
    decreases back.len(),
{
    let t = front + seq!['_'] + back;
    if back.len() > 0 {
        lemma_last_underscore_before(front, back.drop_last());
        assert(t.drop_last() =~= front + seq!['_'] + back.drop_last());
        assert(t.last() == back.last());
    } else {
        assert(t.last() == '_');
    }
}

/// A stamp put on a name with an underscore comes off again: what the name is without its
/// stamps does not change.
pub proof fn law_a_stamp_comes_off(stem: Seq<char>, seconds: nat)
    ensures
        unstamped(stem + seq!['_'] + stamp_text(seconds)) == unstamped(stem),
{
    let st = stamp_text(seconds);
    let t = stem + seq!['_'] + st;
    lemma_stamp_like(seconds);
    assert forall|i: int| 0 <= i < st.len() implies st[i] != '_' by {
        assert('0' <= st[i] <= '9' || st[i] == '-');
    }
    lemma_last_underscore_before(stem, st);
    assert(t.subrange(stem.len() + 1int, t.len() as int) =~= st);
    assert(t.subrange(0, stem.len() as int) =~= stem);
}

} // verus!
