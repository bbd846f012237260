//! UTC timestamps without a time library.
use vstd::prelude::*;

use crate::text;

verus! {

// ---- The calendar -------------------------------------------------------------------------------------

pub open spec fn is_leap(y: int) -> bool {
    y % 4 == 0 && (y % 100 != 0 || y % 400 == 0)
}

/// The number of days of a month.
pub open spec fn month_len(y: int, m: int) -> int {
    if m == 2 {
        if is_leap(y) {
            29
        } else {
            28
        }
    } else if m == 4 || m == 6 || m == 9 || m == 11 {
        30
    } else {
        31
    }
}

/// The number of days from the first day of year 0 to the first day of year `y`.
pub open spec fn year_start(y: int) -> int {
    365 * y + (y + 3) / 4 - (y + 99) / 100 + (y + 399) / 400
}

/// The number of days from the first day of a year to the first day of its month `m`.
pub open spec fn month_start(y: int, m: int) -> int
    decreases m,
{
    if m <= 1 {
        0
    } else {
        month_start(y, m - 1) + month_len(y, m - 1)
    }
}

/// The number of days from 1970-01-01 to a date.
pub open spec fn day_number(y: int, m: int, d: int) -> int {
    year_start(y) + month_start(y, m) + (d - 1) - 719_528
}

pub open spec fn is_date(y: int, m: int, d: int) -> bool {
    1 <= m <= 12 && 1 <= d <= month_len(y, m)
}

/// A year follows the one before it by as many days as that has.
pub proof fn lemma_year_start_step(y: int)
    ensures
        year_start(y + 1) == year_start(y) + if is_leap(y) {
            366int
        } else {
            365
        },
{
    assert((y + 4) / 4 - (y + 3) / 4 == if y % 4 == 0 {
        1int
    } else {
        0
    });
    assert((y + 100) / 100 - (y + 99) / 100 == if y % 100 == 0 {
        1int
    } else {
        0
    });
    assert((y + 400) / 400 - (y + 399) / 400 == if y % 400 == 0 {
        1int
    } else {
        0
    });
    lemma_centuries(y);
}

proof fn lemma_centuries(y: int)
    ensures
        y % 400 == 0 ==> y % 100 == 0,
        y % 100 == 0 ==> y % 4 == 0,
{
}

/// The UTC date and time of a number of Unix seconds.
pub struct Civil {
    pub year: i64,
    pub month: u32,
    pub day: u32,
    pub hour: u32,
    pub minute: u32,
    pub second: u32,
}

/// `c` is the date and time that lies `secs` seconds after the start of 1970.
pub open spec fn is_civil(c: Civil, secs: int) -> bool {
    &&& is_date(c.year as int, c.month as int, c.day as int)
    &&& c.hour < 24
    &&& c.minute < 60
    &&& c.second < 60
    &&& secs == 86_400 * day_number(c.year as int, c.month as int, c.day as int) + 3_600 * c.hour + 60
        * c.minute + c.second
}

/// A year number with at least four characters, the sign among them.
pub open spec fn year_text(y: int) -> Seq<char> {
    if y < 0 {
        seq!['-'] + text::pad_left(text::decimal((-y) as nat), 3, '0')
    } else {
        text::pad_left(text::decimal(y as nat), 4, '0')
    }
}

pub open spec fn two_digits(n: int) -> Seq<char> {
    text::pad_left(text::decimal(n as nat), 2, '0')
}

/// A date and time as it is shown.
pub open spec fn civil_text(c: Civil) -> Seq<char> {
    year_text(c.year as int) + seq!['-'] + two_digits(c.month as int) + seq!['-'] + two_digits(
        c.day as int,
    ) + seq![' '] + two_digits(c.hour as int) + seq![':'] + two_digits(c.minute as int) + seq![':']
        + two_digits(c.second as int) + " UTC"@
}

proof fn lemma_month_starts(y: int)
    ensures
        month_start(y, 1) == 0,
        month_start(y, 2) == 31,
        month_start(y, 3) == 59 + (month_len(y, 2) - 28),
        month_start(y, 4) == 90 + (month_len(y, 2) - 28),
        month_start(y, 5) == 120 + (month_len(y, 2) - 28),
        month_start(y, 6) == 151 + (month_len(y, 2) - 28),
        month_start(y, 7) == 181 + (month_len(y, 2) - 28),
        month_start(y, 8) == 212 + (month_len(y, 2) - 28),
        month_start(y, 9) == 243 + (month_len(y, 2) - 28),
        month_start(y, 10) == 273 + (month_len(y, 2) - 28),
        month_start(y, 11) == 304 + (month_len(y, 2) - 28),
        month_start(y, 12) == 334 + (month_len(y, 2) - 28),
{
    reveal_with_fuel(month_start, 13);
}

/// A date is determined by its day number.
pub proof fn law_dates_differ(y: int, m: int, d: int, y2: int, m2: int, d2: int)
    requires
        is_date(y, m, d),
        is_date(y2, m2, d2),
        day_number(y, m, d) == day_number(y2, m2, d2),
    ensures
        y == y2 && m == m2 && d == d2,
{
    lemma_within_year(y, m, d);
    lemma_within_year(y2, m2, d2);
    if y < y2 {
        lemma_years_ascend(y + 1, y2);
        lemma_year_start_step(y);
    } else if y2 < y {
        lemma_years_ascend(y2 + 1, y);
        lemma_year_start_step(y2);
    }
    lemma_month_starts(y);
}

proof fn lemma_within_year(y: int, m: int, d: int)
    requires
        is_date(y, m, d),
    ensures
        0 <= month_start(y, m) + d - 1 < if is_leap(y) {
            366int
        } else {
            365
        },
{
    lemma_month_starts(y);
}

proof fn lemma_years_ascend(y: int, y2: int)
    requires
        y <= y2,
    ensures
        year_start(y) <= year_start(y2),
    decreases y2 - y,
{
    if y < y2 {
        lemma_years_ascend(y, y2 - 1);
        lemma_year_start_step(y2 - 1);
    }
}

/// The number of days from the first of March to the first of the month `m` that follows.
pub open spec fn march_start(m: int) -> int {
    if m == 3 {
        0
    } else if m == 4 {
        31
    } else if m == 5 {
        61
    } else if m == 6 {
        92
    } else if m == 7 {
        122
    } else if m == 8 {
        153
    } else if m == 9 {
        184
    } else if m == 10 {
        214
    } else if m == 11 {
        245
    } else if m == 12 {
        275
    } else if m == 1 {
        306
    } else {
        337
    }
}

/// Month and day of the day `doy` of a year that starts in March.
fn month_day(doy: i64) -> (found: (i64, i64))
    requires
        0 <= doy <= 365,
    ensures
        1 <= found.0 <= 12,
        doy == march_start(found.0 as int) + found.1 - 1,
        1 <= found.1,
        found.0 != 2 ==> found.1 <= month_len(1, found.0 as int),
        found.0 == 2 ==> found.1 <= 29,
{
    if doy < 31 {
        (3, doy + 1)
    } else if doy < 61 {
        (4, doy - 31 + 1)
    } else if doy < 92 {
        (5, doy - 61 + 1)
    } else if doy < 122 {
        (6, doy - 92 + 1)
    } else if doy < 153 {
        (7, doy - 122 + 1)
    } else if doy < 184 {
        (8, doy - 153 + 1)
    } else if doy < 214 {
        (9, doy - 184 + 1)
    } else if doy < 245 {
        (10, doy - 214 + 1)
    } else if doy < 275 {
        (11, doy - 245 + 1)
    } else if doy < 306 {
        (12, doy - 275 + 1)
    } else if doy < 337 {
        (1, doy - 306 + 1)
    } else {
        (2, doy - 337 + 1)
    }
}

/// Century, four-year period, year and day of the day `doe` of 400 years that start in March.
fn split_era(doe: u64) -> (found: (u64, u64, u64, u64))
    requires
        doe < 146_097,
    ensures
        found.0 <= 3,
        found.1 <= 24,
        found.2 <= 3,
        found.3 <= 365,
        found.3 == 365 ==> found.2 == 3 && (found.1 < 24 || found.0 == 3),
        doe == 36_524 * found.0 + 1_461 * found.1 + 365 * found.2 + found.3,
{
    let c: u64 = if doe / 36_524 < 3 {
        doe / 36_524
    } else {
        3
    };
    let doc: u64 = doe - 36_524 * c;
    let q: u64 = doc / 1_461;
    let doq: u64 = doc - 1_461 * q;
    let yy: u64 = if doq / 365 < 3 {
        doq / 365
    } else {
        3
    };
    (c, q, yy, doq - 365 * yy)
}

/// The date that lies a number of days after 1970-01-01.
fn date_of(days: i64) -> (date: (i64, u32, u32))
    requires
        -1_000_000_000_000_000 < days < 1_000_000_000_000_000,
    ensures
        is_date(date.0 as int, date.1 as int, date.2 as int),
        day_number(date.0 as int, date.1 as int, date.2 as int) == days,
{
    // Years that start in March end with their leap day, and repeat every 400 years.
    let z: i64 = days + 719_468;
    let era: i64 = match z.checked_div_euclid(146_097) {
        Some(era) => era,
        None => 0,
    };
    assert(0 <= z - era * 146_097 < 146_097);
    let doe: u64 = (z - era * 146_097) as u64;
    let (c, q, yy, doy) = split_era(doe);
    let y: i64 = era * 400 + (100 * c + 4 * q + yy) as i64;
    let (month, day) = month_day(doy as i64);
    proof {
        lemma_march_date(
            era as int,
            c as int,
            q as int,
            yy as int,
            doy as int,
            month as int,
            day as int,
        );
    }
    let year: i64 = if month <= 2 {
        y + 1
    } else {
        y
    };
    (year, month as u32, day as u32)
}

/// Split Unix seconds into UTC civil date/time.
pub fn civil(secs: i64) -> (c: Civil)
    ensures
        is_civil(c, secs as int),
{
    let days: i64 = match secs.checked_div_euclid(86_400) {
        Some(days) => days,
        None => 0,
    };
    let tod: u64 = match secs.checked_rem_euclid(86_400) {
        Some(tod) => tod as u64,
        None => 0,
    };
    let (year, month, day) = date_of(days);
    Civil {
        year,
        month,
        day,
        hour: (tod / 3_600) as u32,
        minute: ((tod % 3_600) / 60) as u32,
        second: (tod % 60) as u32,
    }
}

/// Where the year behind the one that starts in March of year `400 * era + 100 * c + 4 * q + yy`
/// begins, and which of the two is a leap year.
proof fn lemma_march_year(era: int, c: int, q: int, yy: int)
    requires
        0 <= c <= 3,
        0 <= q <= 24,
        0 <= yy <= 3,
    ensures
        ({
            let y = 400 * era + 100 * c + 4 * q + yy;
            let start = 146_097 * era + 36_524 * c + 1_461 * q + 365 * yy;
            &&& year_start(y) + month_start(y, 3) == start + 60
            &&& year_start(y + 1) == start + 366
            &&& is_leap(y + 1) == (yy == 3 && (q < 24 || c == 3))
        }),
{
    let y = 400 * era + 100 * c + 4 * q + yy;
    let fours = 100 * era + 25 * c + q;
    let hundreds = 4 * era + c;
    assert(y + 4 == 4 * (fours + 1) + yy);
    assert((y + 4) / 4 == fours + 1);
    assert(y + 100 == 100 * (hundreds + 1) + (4 * q + yy));
    assert((y + 100) / 100 == hundreds + 1);
    assert(y + 400 == 400 * (era + 1) + (100 * c + 4 * q + yy));
    assert((y + 400) / 400 == era + 1);
    lemma_year_start_step(y);
    lemma_month_starts(y);
    let next = y + 1;
    assert(next == 4 * fours + (yy + 1));
    assert(next % 4 == 0 <==> yy == 3);
    assert(next == 100 * hundreds + (4 * q + yy + 1));
    assert(next % 100 == 0 <==> q == 24 && yy == 3);
    assert(next == 400 * era + (100 * c + 4 * q + yy + 1));
    assert(next % 400 == 0 <==> c == 3 && q == 24 && yy == 3);
}

/// The date of the day `doy` of the year that starts in March of the given year.
proof fn lemma_march_date(era: int, c: int, q: int, yy: int, doy: int, month: int, day: int)
    requires
        0 <= c <= 3,
        0 <= q <= 24,
        0 <= yy <= 3,
        0 <= doy <= 365,
        doy == 365 ==> yy == 3 && (q < 24 || c == 3),
        1 <= month <= 12,
        doy == march_start(month) + day - 1,
        1 <= day,
        month != 2 ==> day <= month_len(1, month),
        month == 2 ==> day <= 29,
    ensures
        ({
            let y = 400 * era + 100 * c + 4 * q + yy;
            let year = if month <= 2 {
                y + 1
            } else {
                y
            };
            &&& is_date(year, month, day)
            &&& day_number(year, month, day) == 146_097 * era + 36_524 * c + 1_461 * q + 365 * yy
                + doy - 719_468
        }),
{
    let y = 400 * era + 100 * c + 4 * q + yy;
    lemma_march_year(era, c, q, yy);
    lemma_month_starts(y);
    lemma_month_starts(y + 1);
}

/// Two digits of a number below 100.
fn two_digit_text(n: u32) -> (out: String)
    ensures
        out@ == two_digits(n as int),
{
    text::padded(text::decimal_text(n as u64).as_str(), 2, '0')
}

/// A date and time as it is shown.
fn format_civil(c: &Civil) -> (out: String)
    ensures
        out@ == civil_text(*c),
{
    let mut out = if c.year < 0 {
        let n: u64 = (-(c.year + 1)) as u64 + 1;
        text::joined("-", text::padded(text::decimal_text(n).as_str(), 3, '0').as_str())
    } else {
        text::padded(text::decimal_text(c.year as u64).as_str(), 4, '0')
    };
    proof {
        reveal_strlit("-");
        assert("-"@ =~= seq!['-']);
        assert(out@ == year_text(c.year as int));
    }
    out.push('-');
    out.append(two_digit_text(c.month).as_str());
    out.push('-');
    out.append(two_digit_text(c.day).as_str());
    out.push(' ');
    out.append(two_digit_text(c.hour).as_str());
    out.push(':');
    out.append(two_digit_text(c.minute).as_str());
    out.push(':');
    out.append(two_digit_text(c.second).as_str());
    out.append(" UTC");
    assert(out@ =~= civil_text(*c));
    out
}

/// The date and time of a number of seconds, written out.
pub open spec fn time_text(secs: int) -> Seq<char> {
    civil_text(choose|c: Civil| is_civil(c, secs))
}

/// Human-readable UTC timestamp for the info panel (mtime), dependency-free.
pub fn fmt_time(secs: i64) -> (out: String)
    ensures
        exists|c: Civil| #[trigger] is_civil(c, secs as int) && out@ == civil_text(c),
        out@ == time_text(secs as int),
{
    let c = civil(secs);
    proof {
        law_times_differ(c, choose|d: Civil| is_civil(d, secs as int), secs as int);
    }
    format_civil(&c)
}

/// There is just one date and time for a number of seconds.
pub proof fn law_times_differ(a: Civil, b: Civil, secs: int)
    requires
        is_civil(a, secs),
        is_civil(b, secs),
    ensures
        a == b,
{
    law_dates_differ(
        a.year as int,
        a.month as int,
        a.day as int,
        b.year as int,
        b.month as int,
        b.day as int,
    );
}

// ---- The order of times -----------------------------------------------------------------------------

/// The date of each day from the start of year 0 on.
proof fn lemma_date_exists(n: int) -> (date: (int, int, int))
    requires
        -719_528 <= n,
    ensures
        is_date(date.0, date.1, date.2),
        day_number(date.0, date.1, date.2) == n,
        0 <= date.0,
    decreases n + 719_528,
{
    if n <= -719_528 {
        assert(year_start(0) == 0);
        (0, 1, 1)
    } else {
        let (y, m, d) = lemma_date_exists(n - 1);
        lemma_month_starts(y);
        if d < month_len(y, m) {
            (y, m, d + 1)
        } else if m < 12 {
            assert(month_start(y, m + 1) == month_start(y, m) + month_len(y, m));
            (y, m + 1, 1)
        } else {
            lemma_year_start_step(y);
            (y + 1, 1, 1)
        }
    }
}

/// An earlier day has an earlier date.
proof fn lemma_date_order(y: int, m: int, d: int, y2: int, m2: int, d2: int)
    requires
        is_date(y, m, d),
        is_date(y2, m2, d2),
        day_number(y, m, d) < day_number(y2, m2, d2),
    ensures
        y < y2 || (y == y2 && (m < m2 || (m == m2 && d < d2))),
{
    lemma_within_year(y, m, d);
    lemma_within_year(y2, m2, d2);
    if y2 < y {
        lemma_years_ascend(y2 + 1, y);
        lemma_year_start_step(y2);
    }
    lemma_month_starts(y);
}

/// The times from the start of year 0 to the end of year 9999.
pub open spec fn is_four_digit_time(secs: int) -> bool {
    -62_167_219_200 <= secs <= 253_402_300_799
}

proof fn lemma_civil_exists(secs: int) -> (c: Civil)
    requires
        is_four_digit_time(secs),
    ensures
        is_civil(c, secs),
        0 <= c.year <= 9999,
{
    let n = secs / 86_400;
    let tod = secs % 86_400;
    let (y, m, d) = lemma_date_exists(n);
    if y >= 10_000 {
        lemma_years_ascend(10_000, y);
        lemma_within_year(y, m, d);
        assert(year_start(10_000) == 3_652_425);
    }
    Civil {
        year: y as i64,
        month: m as u32,
        day: d as u32,
        hour: (tod / 3_600) as u32,
        minute: ((tod % 3_600) / 60) as u32,
        second: (tod % 60) as u32,
    }
}

proof fn lemma_two_digits(n: int)
    requires
        0 <= n < 100,
    ensures
        two_digits(n) == seq![text::digit(n / 10), text::digit(n % 10)],
{
    reveal_with_fuel(text::decimal, 3);
    assert(two_digits(n) =~= seq![text::digit(n / 10), text::digit(n % 10)]);
}

proof fn lemma_four_digits(n: int)
    requires
        0 <= n < 10_000,
    ensures
        year_text(n) == seq![
            text::digit(n / 1000),
            text::digit(n / 100 % 10),
            text::digit(n / 10 % 10),
            text::digit(n % 10),
        ],
{
    reveal_with_fuel(text::decimal, 5);
    let a = (n / 10) as nat;
    let b = (a / 10) as nat;
    assert(b == n / 100 && b / 10 == n / 1000);
    assert(year_text(n) =~= seq![
        text::digit(n / 1000),
        text::digit(n / 100 % 10),
        text::digit(n / 10 % 10),
        text::digit(n % 10),
    ]);
}

/// `a` is a text of the same length as `b` that comes before it.
spec fn sooner(a: Seq<char>, b: Seq<char>) -> bool {
    a.len() == b.len() && text::at_most(a, b) && a != b
}

/// Texts that differ first where `a` has the earlier character.
proof fn lemma_first_difference(a: Seq<char>, b: Seq<char>, k: int)
    requires
        a.len() == b.len(),
        0 <= k < a.len(),
        forall|j: int| 0 <= j < k ==> a[j] == b[j],
        a[k] < b[k],
    ensures
        sooner(a, b),
    decreases k,
{
    if k > 0 {
        let x = a.drop_first();
        let y = b.drop_first();
        assert(a[0] == b[0]);
        assert forall|j: int| 0 <= j < k - 1 implies x[j] == y[j] by {
            assert(a[j + 1] == b[j + 1]);
        }
        lemma_first_difference(x, y, k - 1);
    }
}

/// Of two texts of the same length the first place that decides does so whatever follows.
proof fn lemma_sooner_with(a: Seq<char>, b: Seq<char>, x: Seq<char>, y: Seq<char>)
    requires
        a.len() == b.len(),
        x.len() == y.len(),
    ensures
        sooner(a, b) || (a == b && sooner(x, y)) ==> sooner(a + x, b + y),
    decreases a.len(),
{
    if a.len() == 0 {
        assert(a =~= b);
        assert(a + x =~= x && b + y =~= y);
    } else if a[0] == b[0] {
        let (c, d) = (a.drop_first(), b.drop_first());
        assert((a + x).drop_first() =~= c + x);
        assert((b + y).drop_first() =~= d + y);
        assert(a =~= seq![a[0]] + c);
        assert(b =~= seq![b[0]] + d);
        assert(c == d ==> a == b);
        lemma_sooner_with(c, d, x, y);
        if sooner(c + x, d + y) {
            assert(a + x != b + y);
        }
    } else {
        assert((a + x)[0] == a[0] && (b + y)[0] == b[0]);
    }
}

proof fn lemma_sooner_pair(n: int, m: int)
    requires
        0 <= n < 100,
        0 <= m < 100,
    ensures
        two_digits(n).len() == 2,
        two_digits(m).len() == 2,
        n < m ==> sooner(two_digits(n), two_digits(m)),
{
    lemma_two_digits(n);
    lemma_two_digits(m);
    if n < m {
        if n / 10 < m / 10 {
            lemma_first_difference(two_digits(n), two_digits(m), 0);
        } else {
            lemma_first_difference(two_digits(n), two_digits(m), 1);
        }
    }
}

/// The first of four digits at which a smaller number differs.
proof fn lemma_four_differ(n: int, m: int) -> (k: int)
    requires
        0 <= n < m < 10_000,
    ensures
        0 <= k < 4,
        k == 0 ==> n / 1000 < m / 1000,
        k >= 1 ==> n / 1000 == m / 1000,
        k == 1 ==> n / 100 % 10 < m / 100 % 10,
        k >= 2 ==> n / 100 % 10 == m / 100 % 10,
        k == 2 ==> n / 10 % 10 < m / 10 % 10,
        k >= 3 ==> n / 10 % 10 == m / 10 % 10,
        k == 3 ==> n % 10 < m % 10,
{
    if n / 1000 < m / 1000 {
        0
    } else if n / 100 < m / 100 {
        1
    } else if n / 10 < m / 10 {
        2
    } else {
        3
    }
}

proof fn lemma_sooner_year(n: int, m: int)
    requires
        0 <= n < 10_000,
        0 <= m < 10_000,
    ensures
        year_text(n).len() == 4,
        year_text(m).len() == 4,
        n < m ==> sooner(year_text(n), year_text(m)),
{
    lemma_four_digits(n);
    lemma_four_digits(m);
    if n < m {
        let k = lemma_four_differ(n, m);
        let (a, b) = (year_text(n), year_text(m));
        assert(a[k] < b[k]);
        assert forall|j: int| 0 <= j < k implies a[j] == b[j] by {}
        lemma_first_difference(a, b, k);
    }
}

/// The date comes before the other, or is the same and the time of day comes before the other.
spec fn is_before(c: Civil, d: Civil) -> bool {
    ||| c.year < d.year
    ||| c.year == d.year && c.month < d.month
    ||| c.year == d.year && c.month == d.month && c.day < d.day
    ||| c.year == d.year && c.month == d.month && c.day == d.day && (c.hour < d.hour || (c.hour
        == d.hour && (c.minute < d.minute || (c.minute == d.minute && c.second < d.second))))
}

/// Dates and times are written so that earlier ones come first.
proof fn lemma_text_order(c: Civil, d: Civil)
    requires
        0 <= c.year <= 9999,
        0 <= d.year <= 9999,
        c.month < 100 && c.day < 100 && c.hour < 100 && c.minute < 100 && c.second < 100,
        d.month < 100 && d.day < 100 && d.hour < 100 && d.minute < 100 && d.second < 100,
        is_before(c, d),
    ensures
        civil_text(c).len() == 23,
        sooner(civil_text(c), civil_text(d)),
{
    lemma_sooner_year(c.year as int, d.year as int);
    lemma_sooner_pair(c.month as int, d.month as int);
    lemma_sooner_pair(c.day as int, d.day as int);
    lemma_sooner_pair(c.hour as int, d.hour as int);
    lemma_sooner_pair(c.minute as int, d.minute as int);
    lemma_sooner_pair(c.second as int, d.second as int);
    reveal_strlit(" UTC");
    let (a0, b0) = (year_text(c.year as int), year_text(d.year as int));
    let (a1, b1) = (a0 + seq!['-'], b0 + seq!['-']);
    let (a2, b2) = (a1 + two_digits(c.month as int), b1 + two_digits(d.month as int));
    let (a3, b3) = (a2 + seq!['-'], b2 + seq!['-']);
    let (a4, b4) = (a3 + two_digits(c.day as int), b3 + two_digits(d.day as int));
    let (a5, b5) = (a4 + seq![' '], b4 + seq![' ']);
    let (a6, b6) = (a5 + two_digits(c.hour as int), b5 + two_digits(d.hour as int));
    let (a7, b7) = (a6 + seq![':'], b6 + seq![':']);
    let (a8, b8) = (a7 + two_digits(c.minute as int), b7 + two_digits(d.minute as int));
    let (a9, b9) = (a8 + seq![':'], b8 + seq![':']);
    let (a10, b10) = (a9 + two_digits(c.second as int), b9 + two_digits(d.second as int));
    assert(civil_text(c) == a10 + " UTC"@);
    assert(civil_text(d) == b10 + " UTC"@);
    lemma_sooner_with(a0, b0, seq!['-'], seq!['-']);
    lemma_sooner_with(a1, b1, two_digits(c.month as int), two_digits(d.month as int));
    lemma_sooner_with(a2, b2, seq!['-'], seq!['-']);
    lemma_sooner_with(a3, b3, two_digits(c.day as int), two_digits(d.day as int));
    lemma_sooner_with(a4, b4, seq![' '], seq![' ']);
    lemma_sooner_with(a5, b5, two_digits(c.hour as int), two_digits(d.hour as int));
    lemma_sooner_with(a6, b6, seq![':'], seq![':']);
    lemma_sooner_with(a7, b7, two_digits(c.minute as int), two_digits(d.minute as int));
    lemma_sooner_with(a8, b8, seq![':'], seq![':']);
    lemma_sooner_with(a9, b9, two_digits(c.second as int), two_digits(d.second as int));
    lemma_sooner_with(a10, b10, " UTC"@, " UTC"@);
}

/// From year 0 to year 9999 a time takes 23 characters, and a later time is a later text.
pub proof fn law_later_times_are_later_texts(a: int, b: int)
    requires
        is_four_digit_time(a),
        is_four_digit_time(b),
        a < b,
    ensures
        time_text(a).len() == 23,
        time_text(b).len() == 23,
        text::at_most(time_text(a), time_text(b)),
        time_text(a) != time_text(b),
{
    let c = lemma_civil_exists(a);
    let d = lemma_civil_exists(b);
    law_times_differ(c, choose|x: Civil| is_civil(x, a), a);
    law_times_differ(d, choose|x: Civil| is_civil(x, b), b);
    let day = day_number(c.year as int, c.month as int, c.day as int);
    let day2 = day_number(d.year as int, d.month as int, d.day as int);
    if day < day2 {
        lemma_date_order(
            c.year as int,
            c.month as int,
            c.day as int,
            d.year as int,
            d.month as int,
            d.day as int,
        );
    } else {
        law_dates_differ(
            c.year as int,
            c.month as int,
            c.day as int,
            d.year as int,
            d.month as int,
            d.day as int,
        );
    }
    assert(is_before(c, d));
    lemma_text_order(c, d);
}

/// The calendar: the lengths of the months, with a leap day in every fourth year, but in a century only
/// in every fourth one; day 0 is the first of January 1970, and each day has the number behind that of
/// the day before it, within a month, into the next one and into the next year.
pub proof fn law_each_day_follows_the_one_before(y: int, m: int, d: int)
    requires
        is_date(y, m, d),
    ensures
        day_number(1970, 1, 1) == 0,
        m == 1 || m == 3 || m == 5 || m == 7 || m == 8 || m == 10 || m == 12 ==> month_len(y, m) == 31,
        m == 4 || m == 6 || m == 9 || m == 11 ==> month_len(y, m) == 30,
        month_len(y, 2) == 29 <==> y % 400 == 0 || (y % 4 == 0 && y % 100 != 0),
        month_len(y, 2) == 28 || month_len(y, 2) == 29,
        d < month_len(y, m) ==> is_date(y, m, d + 1) && day_number(y, m, d + 1) == day_number(y, m, d)
            + 1,
        d == month_len(y, m) && m < 12 ==> is_date(y, m + 1, 1) && day_number(y, m + 1, 1)
            == day_number(y, m, d) + 1,
        d == month_len(y, m) && m == 12 ==> is_date(y + 1, 1, 1) && day_number(y + 1, 1, 1)
            == day_number(y, m, d) + 1,
{
    lemma_month_starts(1970);
    lemma_month_starts(y);
    lemma_month_starts(y + 1);
    lemma_year_start_step(y);
}

/// The clock: the first second of 1970 is that of the number 0; a second later is one second more, a
/// minute has 60 of them, an hour 60 minutes, and a day 24 hours.
pub proof fn law_seconds_follow_each_other(c: Civil, secs: int)
    requires
        is_civil(c, secs),
    ensures
        is_civil(Civil { year: 1970, month: 1, day: 1, hour: 0, minute: 0, second: 0 }, 0),
        c.second < 59 ==> is_civil(Civil { second: (c.second + 1) as u32, ..c }, secs + 1),
        c.second == 59 && c.minute < 59 ==> is_civil(
            Civil { second: 0, minute: (c.minute + 1) as u32, ..c },
            secs + 1,
        ),
        c.second == 59 && c.minute == 59 && c.hour < 23 ==> is_civil(
            Civil { second: 0, minute: 0, hour: (c.hour + 1) as u32, ..c },
            secs + 1,
        ),
        c.day < month_len(c.year as int, c.month as int) ==> is_civil(
            Civil { day: (c.day + 1) as u32, ..c },
            secs + 24 * 60 * 60,
        ),
{
    lemma_month_starts(1970);
}

proof fn lemma_two_digits_worth(n: int)
    requires
        0 <= n < 100,
    ensures
        two_digits(n).len() == 2,
        text::worth(two_digits(n), 10) == n,
{
    lemma_two_digits(n);
    reveal_with_fuel(text::worth, 3);
    assert(two_digits(n).drop_last().drop_last() =~= Seq::empty());
}

proof fn lemma_four_digits_worth(n: int)
    requires
        0 <= n < 10_000,
    ensures
        year_text(n).len() == 4,
        text::worth(year_text(n), 10) == n,
{
    lemma_four_digits(n);
    reveal_with_fuel(text::worth, 5);
    let s = year_text(n);
    assert(s.drop_last().drop_last().drop_last().drop_last() =~= Seq::empty());
    assert(n / 10 == 10 * (n / 100) + n / 10 % 10);
    assert(n / 100 == 10 * (n / 1000) + n / 100 % 10);
}

/// How a time is written: the year in four digits, month, day, hour, minute and second in two digits
/// each, in this order, and that it is UTC.
pub proof fn law_times_are_written_out(c: Civil)
    requires
        0 <= c.year <= 9_999,
        c.month < 100 && c.day < 100 && c.hour < 100 && c.minute < 100 && c.second < 100,
    ensures
        ({
            let s = civil_text(c);
            &&& s.len() == 23
            &&& text::worth(s.subrange(0, 4), 10) == c.year && s[4] == '-'
            &&& text::worth(s.subrange(5, 7), 10) == c.month && s[7] == '-'
            &&& text::worth(s.subrange(8, 10), 10) == c.day && s[10] == ' '
            &&& text::worth(s.subrange(11, 13), 10) == c.hour && s[13] == ':'
            &&& text::worth(s.subrange(14, 16), 10) == c.minute && s[16] == ':'
            &&& text::worth(s.subrange(17, 19), 10) == c.second
            &&& s.subrange(19, 23) == " UTC"@
        }),
{
    let s = civil_text(c);
    lemma_four_digits_worth(c.year as int);
    lemma_two_digits_worth(c.month as int);
    lemma_two_digits_worth(c.day as int);
    lemma_two_digits_worth(c.hour as int);
    lemma_two_digits_worth(c.minute as int);
    lemma_two_digits_worth(c.second as int);
    reveal_strlit(" UTC");
    lemma_layout(
        year_text(c.year as int),
        two_digits(c.month as int),
        two_digits(c.day as int),
        two_digits(c.hour as int),
        two_digits(c.minute as int),
        two_digits(c.second as int),
        " UTC"@,
    );
}

proof fn lemma_layout(
    y: Seq<char>,
    m: Seq<char>,
    d: Seq<char>,
    h: Seq<char>,
    n: Seq<char>,
    z: Seq<char>,
    t: Seq<char>,
)
    requires
        y.len() == 4,
        m.len() == 2 && d.len() == 2 && h.len() == 2 && n.len() == 2 && z.len() == 2,
        t.len() == 4,
    ensures
        ({
            let s = y + seq!['-'] + m + seq!['-'] + d + seq![' '] + h + seq![':'] + n + seq![':'] + z + t;
            &&& s.len() == 23
            &&& s.subrange(0, 4) == y && s[4] == '-'
            &&& s.subrange(5, 7) == m && s[7] == '-'
            &&& s.subrange(8, 10) == d && s[10] == ' '
            &&& s.subrange(11, 13) == h && s[13] == ':'
            &&& s.subrange(14, 16) == n && s[16] == ':'
            &&& s.subrange(17, 19) == z
            &&& s.subrange(19, 23) == t
        }),
{
    let s = y + seq!['-'] + m + seq!['-'] + d + seq![' '] + h + seq![':'] + n + seq![':'] + z + t;
    assert(s.subrange(0, 4) =~= y);
    assert(s.subrange(5, 7) =~= m);
    assert(s.subrange(8, 10) =~= d);
    assert(s.subrange(11, 13) =~= h);
    assert(s.subrange(14, 16) =~= n);
    assert(s.subrange(17, 19) =~= z);
    assert(s.subrange(19, 23) =~= t);
}

proof fn lemma_zeros_worth(n: nat, s: Seq<char>)
    ensures
        text::worth(Seq::new(n, |i: int| '0') + s, 10) == text::worth(s, 10),
    decreases n + s.len(),
{
    let zeros = Seq::new(n, |i: int| '0');
    let all = zeros + s;
    if s.len() > 0 {
        lemma_zeros_worth(n, s.drop_last());
        assert(all.drop_last() =~= zeros + s.drop_last());
    } else if n > 0 {
        lemma_zeros_worth((n - 1) as nat, s);
        assert(all.drop_last() =~= Seq::new((n - 1) as nat, |i: int| '0') + s);
    } else {
        assert(all =~= s);
    }
}

/// Every year is written as its number, with a minus sign before year 0, and in at least four characters.
pub proof fn law_years_are_written_out(y: int)
    ensures
        ({
            let s = year_text(y);
            &&& s.len() >= 4
            &&& y >= 0 ==> text::worth(s, 10) == y
            &&& y < 0 ==> s[0] == '-' && text::worth(s.skip(1), 10) == -y
        }),
{
    let n = if y < 0 {
        (-y) as nat
    } else {
        y as nat
    };
    let width: nat = if y < 0 {
        3
    } else {
        4
    };
    let s = text::decimal(n);
    text::law_numerals_are_worth_their_number(n);
    let padded = text::pad_left(s, width, '0');
    if s.len() < width {
        lemma_zeros_worth((width - s.len()) as nat, s);
        assert(padded =~= Seq::new((width - s.len()) as nat, |i: int| '0') + s);
    }
    if y < 0 {
        assert(year_text(y).skip(1) =~= padded);
    }
}

} // verus!
