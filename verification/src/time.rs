//! Calendar arithmetic: civil dates of the proleptic Gregorian calendar
//! counted in days from 1970-01-01, and the `YYYY-MM-DD HH:MM` rendering
//! of a UNIX timestamp.
use vstd::prelude::*;
use vstd::arithmetic::div_mod::{lemma_fundamental_div_mod, lemma_fundamental_div_mod_converse};
use crate::text::{zero_padded, push_zero_padded, push_char, digit_char, decimal, repeat_char, pow10};
use crate::tree::{name_lt, lemma_name_lt_concat, lemma_name_lt_irreflexive};

verus! {

/// Whether `y` is a leap year of the proleptic Gregorian calendar.
pub open spec fn is_leap_year(y: int) -> bool {
    (y % 4 == 0 && y % 100 != 0) || y % 400 == 0
}

/// The number of days of month `m` (1 = January) of year `y`.
pub open spec fn days_in_month(y: int, m: int) -> int {
    if m == 2 {
        if is_leap_year(y) {
            29
        } else {
            28
        }
    } else if m == 4 || m == 6 || m == 9 || m == 11 {
        30
    } else {
        31
    }
}

/// The number of days in the months of year `y` before month `m`.
pub open spec fn days_before_month(y: int, m: int) -> int
    decreases m,
{
    if m <= 1 {
        0
    } else {
        days_before_month(y, m - 1) + days_in_month(y, m - 1)
    }
}

/// A count of leap years before year `y`: for any two years `a <= b`,
/// `leap_years_before(b) - leap_years_before(a)` is the number of leap
/// years among `a, a + 1, ..., b - 1` (see `lemma_leap_years_step`).
pub open spec fn leap_years_before(y: int) -> int {
    (y - 1) / 4 - (y - 1) / 100 + (y - 1) / 400
}

/// The number of days from 1970-01-01 to January 1st of year `y`
/// (negative for years before 1970).
pub open spec fn days_before_year(y: int) -> int {
    365 * (y - 1970) + leap_years_before(y) - leap_years_before(1970)
}

/// Whether `m`/`d` is a day of year `y`.
pub open spec fn valid_date(y: int, m: int, d: int) -> bool {
    1 <= m <= 12 && 1 <= d <= days_in_month(y, m)
}

/// The number of days from 1970-01-01 to the date `y-m-d`.
pub open spec fn days_from_civil(y: int, m: int, d: int) -> int {
    days_before_year(y) + days_before_month(y, m) + d - 1
}

/// The date that lies `days` days after 1970-01-01 (before it, for a
/// negative count), as (year, month, day).
pub open spec fn civil_from_days(days: int) -> (int, int, int) {
    choose|t: (int, int, int)| valid_date(t.0, t.1, t.2) && days_from_civil(t.0, t.1, t.2) == days
}

/// Each year adds one leap year to the count exactly when it is a leap year.
pub proof fn lemma_leap_years_step(y: int)
    ensures
        leap_years_before(y + 1) == leap_years_before(y) + (if is_leap_year(y) { 1int } else { 0 }),
{
    lemma_fundamental_div_mod(y, 4);
    lemma_fundamental_div_mod(y, 100);
    lemma_fundamental_div_mod(y, 400);
    lemma_fundamental_div_mod(y - 1, 4);
    lemma_fundamental_div_mod(y - 1, 100);
    lemma_fundamental_div_mod(y - 1, 400);
}

/// A year has 366 days when it is a leap year and 365 otherwise.
pub proof fn lemma_year_length(y: int)
    ensures
        days_before_year(y + 1) - days_before_year(y) == (if is_leap_year(y) { 366int } else { 365 }),
        days_before_month(y, 13) == (if is_leap_year(y) { 366int } else { 365 }),
{
    lemma_leap_years_step(y);
    lemma_month_table(y);
}

/// The days before each month, by month.
proof fn lemma_month_table(y: int)
    ensures
        days_before_month(y, 1) == 0,
        days_before_month(y, 2) == 31,
        days_before_month(y, 3) == 59 + (if is_leap_year(y) { 1int } else { 0 }),
        days_before_month(y, 4) == 90 + (if is_leap_year(y) { 1int } else { 0 }),
        days_before_month(y, 5) == 120 + (if is_leap_year(y) { 1int } else { 0 }),
        days_before_month(y, 6) == 151 + (if is_leap_year(y) { 1int } else { 0 }),
        days_before_month(y, 7) == 181 + (if is_leap_year(y) { 1int } else { 0 }),
        days_before_month(y, 8) == 212 + (if is_leap_year(y) { 1int } else { 0 }),
        days_before_month(y, 9) == 243 + (if is_leap_year(y) { 1int } else { 0 }),
        days_before_month(y, 10) == 273 + (if is_leap_year(y) { 1int } else { 0 }),
        days_before_month(y, 11) == 304 + (if is_leap_year(y) { 1int } else { 0 }),
        days_before_month(y, 12) == 334 + (if is_leap_year(y) { 1int } else { 0 }),
        days_before_month(y, 13) == 365 + (if is_leap_year(y) { 1int } else { 0 }),
{
    reveal_with_fuel(days_before_month, 14);
}

/// Years 400 apart agree on being leap years.
proof fn lemma_leap_shift(e: int, k: int)
    ensures
        is_leap_year(400 * e + k) == is_leap_year(k),
{
    lemma_fundamental_div_mod(k, 4);
    lemma_fundamental_div_mod(k, 100);
    lemma_fundamental_div_mod(k, 400);
    lemma_fundamental_div_mod_converse(400 * e + k, 4, 100 * e + k / 4, k % 4);
    lemma_fundamental_div_mod_converse(400 * e + k, 100, 4 * e + k / 100, k % 100);
    lemma_fundamental_div_mod_converse(400 * e + k, 400, e + k / 400, k % 400);
}

/// Day index, counted from 0000-03-01 within a 400-year era, of March 1st
/// of the `n`-th year of the era.
spec fn march_year_start(n: int) -> int {
    365 * n + n / 4 - n / 100
}

/// The length of the year running from March 1st of year `n` of an era
/// to the end of the following February.
spec fn march_year_len(n: int) -> int {
    if (n + 1) % 4 == 0 && ((n + 1) % 100 != 0 || n + 1 == 400) {
        366
    } else {
        365
    }
}

spec fn year_of_era(doe: int) -> int {
    (doe - doe / 1460 + doe / 36524 - doe / 146096) / 365
}

spec fn march_month(doy: int) -> int {
    (5 * doy + 2) / 153
}

/// The year of an era that holds day `doe` of the era.
#[verifier::spinoff_prover]
#[verifier::rlimit(50)]
proof fn lemma_year_of_era(doe: int)
    requires
        0 <= doe < 146097,
    ensures
        0 <= year_of_era(doe) < 400,
        0 <= doe - march_year_start(year_of_era(doe)) < march_year_len(year_of_era(doe)),
{
}

/// The month (0 = March) that holds day `doy` of a year counted from March.
proof fn lemma_march_month(doy: int)
    requires
        0 <= doy < 366,
    ensures
        0 <= march_month(doy) < 12,
        (153 * march_month(doy) + 2) / 5 <= doy,
        doy - (153 * march_month(doy) + 2) / 5 < (if march_month(doy) == 11 {
            29int
        } else if march_month(doy) == 1 || march_month(doy) == 3 || march_month(doy) == 6
            || march_month(doy) == 8 {
            30
        } else {
            31
        }),
{
}

/// March 1st of year `400 * e + n` lies `146097 * e + march_year_start(n) - 719468`
/// days after 1970-01-01.
proof fn lemma_march_start(e: int, n: int)
    requires
        0 <= n < 400,
    ensures
        days_before_year(400 * e + n) + days_before_month(400 * e + n, 3)
            == 146097 * e + march_year_start(n) - 719468,
        is_leap_year(400 * e + n + 1) == (march_year_len(n) == 366),
{
    let y = 400 * e + n;
    lemma_month_table(y);
    lemma_leap_shift(e, n);
    lemma_leap_shift(e, n + 1);
    lemma_fundamental_div_mod(n - 1, 4);
    lemma_fundamental_div_mod(n - 1, 100);
    lemma_fundamental_div_mod(n - 1, 400);
    lemma_fundamental_div_mod_converse(y - 1, 4, 100 * e + (n - 1) / 4, (n - 1) % 4);
    lemma_fundamental_div_mod_converse(y - 1, 100, 4 * e + (n - 1) / 100, (n - 1) % 100);
    lemma_fundamental_div_mod_converse(y - 1, 400, e + (n - 1) / 400, (n - 1) % 400);
    assert(leap_years_before(1970) == 477);
}

/// The date computed from a day count by splitting it into 400-year eras,
/// years counted from March 1st, and months.
spec fn civil_by_eras(days: int) -> (int, int, int) {
    let z = days + 719468;
    let era = z / 146097;
    let doe = z - era * 146097;
    let yoe = year_of_era(doe);
    let doy = doe - march_year_start(yoe);
    let mp = march_month(doy);
    let d = doy - (153 * mp + 2) / 5 + 1;
    let m = if mp < 10 { mp + 3 } else { mp - 9 };
    let y = yoe + era * 400;
    (if m <= 2 { y + 1 } else { y }, m, d)
}

proof fn lemma_civil_by_eras(days: int)
    ensures
        valid_date(civil_by_eras(days).0, civil_by_eras(days).1, civil_by_eras(days).2),
        days_from_civil(civil_by_eras(days).0, civil_by_eras(days).1, civil_by_eras(days).2)
            == days,
{
    let z = days + 719468;
    let era = z / 146097;
    lemma_fundamental_div_mod(z, 146097);
    let doe = z - era * 146097;
    let yoe = year_of_era(doe);
    lemma_year_of_era(doe);
    let doy = doe - march_year_start(yoe);
    let mp = march_month(doy);
    lemma_march_month(doy);
    let y0 = 400 * era + yoe;
    lemma_march_start(era, yoe);
    lemma_month_table(y0);
    lemma_month_table(y0 + 1);
    lemma_year_length(y0);
    assert(yoe + era * 400 == y0);
}

/// Two valid dates with the same day count are the same date.
pub proof fn lemma_days_from_civil_injective(y1: int, m1: int, d1: int, y2: int, m2: int, d2: int)
    requires
        valid_date(y1, m1, d1),
        valid_date(y2, m2, d2),
        days_from_civil(y1, m1, d1) == days_from_civil(y2, m2, d2),
    ensures
        y1 == y2 && m1 == m2 && d1 == d2,
{
    lemma_date_in_year(y1, m1, d1);
    lemma_date_in_year(y2, m2, d2);
    if y1 < y2 {
        lemma_days_before_year_increasing(y1 + 1, y2);
    } else if y2 < y1 {
        lemma_days_before_year_increasing(y2 + 1, y1);
    }
    assert(y1 == y2);
    lemma_month_table(y1);
}

/// A valid date falls within its own year.
proof fn lemma_date_in_year(y: int, m: int, d: int)
    requires
        valid_date(y, m, d),
    ensures
        days_before_year(y) <= days_from_civil(y, m, d) < days_before_year(y + 1),
{
    lemma_month_table(y);
    lemma_year_length(y);
}

proof fn lemma_days_before_year_increasing(a: int, b: int)
    requires
        a <= b,
    ensures
        days_before_year(a) <= days_before_year(b),
    decreases b - a,
{
    if a < b {
        lemma_days_before_year_increasing(a, b - 1);
        lemma_year_length(b - 1);
    }
}

/// Every day count names exactly one valid date, and `civil_from_days`
/// gives it.
pub proof fn lemma_civil_from_days(days: int)
    ensures
        valid_date(civil_from_days(days).0, civil_from_days(days).1, civil_from_days(days).2),
        days_from_civil(civil_from_days(days).0, civil_from_days(days).1, civil_from_days(days).2)
            == days,
{
    lemma_civil_by_eras_is_civil(days);
}

proof fn lemma_civil_by_eras_is_civil(days: int)
    ensures
        valid_date(civil_from_days(days).0, civil_from_days(days).1, civil_from_days(days).2),
        days_from_civil(civil_from_days(days).0, civil_from_days(days).1, civil_from_days(days).2)
            == days,
        civil_from_days(days) == civil_by_eras(days),
{
    lemma_civil_by_eras(days);
    let t = civil_by_eras(days);
    assert(valid_date(t.0, t.1, t.2) && days_from_civil(t.0, t.1, t.2) == days);
    let c = civil_from_days(days);
    lemma_days_from_civil_injective(c.0, c.1, c.2, t.0, t.1, t.2);
}

/// The date `days_since_epoch` days after 1970-01-01, as (year, month, day).
pub fn days_to_date(days_since_epoch: i64) -> (r: (i64, u32, u32))
    requires
        days_since_epoch <= i64::MAX - 719468,
    ensures
        valid_date(r.0 as int, r.1 as int, r.2 as int),
        days_from_civil(r.0 as int, r.1 as int, r.2 as int) == days_since_epoch,
        (r.0 as int, r.1 as int, r.2 as int) == civil_from_days(days_since_epoch as int),
{
    let ghost days = days_since_epoch as int;
    proof {
        lemma_civil_by_eras_is_civil(days);
    }
    let z = days_since_epoch + 719468;
    let era = if z >= 0 { z } else { z - 146096 } / 146097;
    assert(era == z / 146097);
    proof {
        lemma_fundamental_div_mod(z as int, 146097);
    }
    let doe = (z - era * 146097) as u32;
    assert(doe == z - era * 146097);
    proof {
        lemma_year_of_era(doe as int);
    }
    let yoe = (doe - doe / 1460 + doe / 36524 - doe / 146096) / 365;
    assert(yoe == year_of_era(doe as int));
    let y = yoe as i64 + era * 400;
    let doy = doe - (365 * yoe + yoe / 4 - yoe / 100);
    assert(doy == doe - march_year_start(yoe as int));
    proof {
        lemma_march_month(doy as int);
    }
    let mp = (5 * doy + 2) / 153;
    let d = doy - (153 * mp + 2) / 5 + 1;
    let m = if mp < 10 { mp + 3 } else { mp - 9 };
    let y = if m <= 2 { y + 1 } else { y };
    assert((y as int, m as int, d as int) == civil_by_eras(days));
    (y, m, d)
}

/// The text `YYYY-MM-DD HH:MM` for the UTC time `secs` seconds after the
/// UNIX epoch: the date of the day that holds it, and the hours and minutes
/// elapsed since that day's midnight.
pub open spec fn timestamp_text(secs: int) -> Seq<char> {
    let days = secs / 86400;
    let time_of_day = secs % 86400;
    let hours = time_of_day / 3600;
    let minutes = (time_of_day % 3600) / 60;
    let date = civil_from_days(days);
    zero_padded(date.0, 4) + seq!['-'] + zero_padded(date.1, 2) + seq!['-'] + zero_padded(
        date.2,
        2,
    ) + seq![' '] + zero_padded(hours, 2) + seq![':'] + zero_padded(minutes, 2)
}

/// Formats `secs` (seconds since the UNIX epoch, UTC) as `YYYY-MM-DD HH:MM`.
pub fn format_timestamp(secs: i64) -> (r: String)
    ensures
        r@ == timestamp_text(secs as int),
{
    let mut days = secs / 86400;
    let mut time_of_day = secs % 86400;
    if time_of_day < 0 {
        days = days - 1;
        time_of_day = time_of_day + 86400;
    }
    assert(secs == days * 86400 + time_of_day && 0 <= time_of_day < 86400);
    proof {
        lemma_fundamental_div_mod_converse(secs as int, 86400, days as int, time_of_day as int);
    }
    let hours = time_of_day / 3600;
    let minutes = (time_of_day % 3600) / 60;
    let (year, month, day) = days_to_date(days);
    let mut r = String::new();
    push_zero_padded(&mut r, year, 4);
    push_char(&mut r, '-');
    push_zero_padded(&mut r, month as i64, 2);
    push_char(&mut r, '-');
    push_zero_padded(&mut r, day as i64, 2);
    push_char(&mut r, ' ');
    push_zero_padded(&mut r, hours, 2);
    push_char(&mut r, ':');
    push_zero_padded(&mut r, minutes, 2);
    r
}

/// A number below `10^w` written in `w` columns takes exactly `w`.
proof fn lemma_zero_padded_width(n: int, w: nat)
    requires
        w >= 1,
        0 <= n < crate::text::pow10(w),
    ensures
        zero_padded(n, w as int).len() == w,
{
    crate::text::lemma_decimal_len(n as nat, w);
}

/// From 1970 to the end of year 9999, a timestamp is always written in 16
/// characters, `YYYY-MM-DD HH:MM`.
pub proof fn lemma_timestamp_width(secs: int)
    requires
        0 <= secs < 253_402_300_800,
    ensures
        timestamp_text(secs).len() == 16,
{
    let days = secs / 86400;
    assert(0 <= days < 2_932_897);
    lemma_civil_from_days(days);
    let c = civil_from_days(days);
    lemma_date_in_year(c.0, c.1, c.2);
    if c.0 < 1970 {
        lemma_days_before_year_increasing(c.0 + 1, 1970);
    }
    if c.0 >= 10000 {
        lemma_days_before_year_increasing(10000, c.0);
    }
    assert(1970 <= c.0 < 10000);
    assert(crate::text::pow10(4) == 10000 && crate::text::pow10(2) == 100) by {
        reveal_with_fuel(crate::text::pow10, 5);
    }
    let tod = secs % 86400;
    lemma_zero_padded_width(c.0, 4);
    lemma_zero_padded_width(c.1, 2);
    lemma_zero_padded_width(c.2, 2);
    lemma_zero_padded_width(tod / 3600, 2);
    lemma_zero_padded_width((tod % 3600) / 60, 2);
}

proof fn lemma_digit_lt(d1: int, d2: int)
    requires
        0 <= d1 < d2 < 10,
    ensures
        name_lt(seq![digit_char(d1)], seq![digit_char(d2)]),
{
    let c1 = digit_char(d1);
    let c2 = digit_char(d2);
    assert(c1 as u32 == 48 + d1);
    assert(c2 as u32 == 48 + d2);
    assert(seq![c1].drop_first() =~= Seq::<char>::empty());
}

proof fn lemma_zero_padded_digits(n: int, w: nat)
    requires
        w >= 1,
        0 <= n < pow10(w),
    ensures
        w == 1 ==> zero_padded(n, 1) == seq![digit_char(n)],
        w >= 2 ==> zero_padded(n, w as int) == zero_padded(n / 10, w - 1).push(digit_char(n % 10)),
{
    assert(pow10(1) == 10) by {
        reveal_with_fuel(pow10, 2);
    }
    assert(pow10(w) == 10 * pow10((w - 1) as nat));
    if n < 10 {
        assert(decimal(n as nat) == seq![digit_char(n)]);
        if w == 1 {
            assert(zero_padded(n, 1) =~= seq![digit_char(n)]);
        } else {
            assert(decimal(0) == seq![digit_char(0)]);
            assert(digit_char(0) == '0');
            assert(zero_padded(0, w - 1) =~= repeat_char('0', w - 1));
            assert(zero_padded(n, w as int) =~= repeat_char('0', w - 1).push(digit_char(n)));
        }
    } else {
        assert(w >= 2);
        let q = n / 10;
        assert(q < pow10((w - 1) as nat));
        assert(decimal(n as nat) == decimal(q as nat).push(digit_char(n % 10)));
        assert(zero_padded(n, w as int) =~= zero_padded(q, w - 1).push(digit_char(n % 10)));
    }
}

/// Between two numbers of at most `w` digits, the smaller one written in
/// `w` columns with leading zeros sorts first.
proof fn lemma_zero_padded_lt(n: int, m: int, w: nat)
    requires
        w >= 1,
        0 <= n < m < pow10(w),
    ensures
        name_lt(zero_padded(n, w as int), zero_padded(m, w as int)),
    decreases w,
{
    lemma_zero_padded_digits(n, w);
    lemma_zero_padded_digits(m, w);
    if w == 1 {
        assert(pow10(1) == 10) by {
            reveal_with_fuel(pow10, 2);
        }
        lemma_digit_lt(n, m);
    } else {
        assert(pow10(w) == 10 * pow10((w - 1) as nat));
        let x = zero_padded(n / 10, w - 1);
        let y = zero_padded(m / 10, w - 1);
        lemma_zero_padded_width(n / 10, (w - 1) as nat);
        lemma_zero_padded_width(m / 10, (w - 1) as nat);
        let a = digit_char(n % 10);
        let b = digit_char(m % 10);
        assert(x.push(a) =~= x + seq![a]);
        assert(y.push(b) =~= y + seq![b]);
        lemma_name_lt_concat(x, seq![a], y, seq![b]);
        if n / 10 < m / 10 {
            lemma_zero_padded_lt(n / 10, m / 10, (w - 1) as nat);
        } else {
            lemma_digit_lt(n % 10, m % 10);
        }
    }
}

/// `x1 + x2` sorts no later than `y1 + y2` when the first parts have the
/// same length and either sort strictly in order, or are equal with the
/// second parts in order.
proof fn lemma_le_concat(x1: Seq<char>, x2: Seq<char>, y1: Seq<char>, y2: Seq<char>)
    requires
        x1.len() == y1.len(),
        name_lt(x1, y1) || (x1 == y1 && (x2 == y2 || name_lt(x2, y2))),
    ensures
        x1 + x2 == y1 + y2 || name_lt(x1 + x2, y1 + y2),
{
    lemma_name_lt_concat(x1, x2, y1, y2);
}

proof fn lemma_days_before_month_increasing(y: int, a: int, b: int)
    requires
        1 <= a <= b,
    ensures
        days_before_month(y, a) <= days_before_month(y, b),
    decreases b - a,
{
    if a < b {
        lemma_days_before_month_increasing(y, a, b - 1);
    }
}

/// A date earlier in the calendar has a smaller day count.
proof fn lemma_days_from_civil_ordered(y1: int, m1: int, d1: int, y2: int, m2: int, d2: int)
    requires
        valid_date(y1, m1, d1),
        valid_date(y2, m2, d2),
        y1 < y2 || (y1 == y2 && (m1 < m2 || (m1 == m2 && d1 < d2))),
    ensures
        days_from_civil(y1, m1, d1) < days_from_civil(y2, m2, d2),
{
    if y1 < y2 {
        lemma_date_in_year(y1, m1, d1);
        lemma_date_in_year(y2, m2, d2);
        lemma_days_before_year_increasing(y1 + 1, y2);
    } else if m1 < m2 {
        lemma_days_before_month_increasing(y1, m1 + 1, m2);
    }
}

/// The date of a day count from 0 to the end of year 9999 is in years
/// 1970 to 9999.
proof fn lemma_date_range(days: int)
    requires
        0 <= days < 2_932_897,
    ensures
        valid_date(civil_from_days(days).0, civil_from_days(days).1, civil_from_days(days).2),
        days_from_civil(civil_from_days(days).0, civil_from_days(days).1, civil_from_days(days).2) == days,
        1970 <= civil_from_days(days).0 < 10000,
{
    lemma_civil_from_days(days);
    let c = civil_from_days(days);
    lemma_date_in_year(c.0, c.1, c.2);
    if c.0 < 1970 {
        lemma_days_before_year_increasing(c.0 + 1, 1970);
    }
    if c.0 >= 10000 {
        lemma_days_before_year_increasing(10000, c.0);
    }
}

/// The timestamp text, grouped from the right.
spec fn fields_text(y: int, m: int, d: int, h: int, mi: int) -> Seq<char> {
    zero_padded(y, 4) + (seq!['-'] + (zero_padded(m, 2) + (seq!['-'] + (zero_padded(d, 2) + (seq![' '] + (
    zero_padded(h, 2) + (seq![':'] + zero_padded(mi, 2))))))))
}

/// Whether `a` sorts no later than `b`.
spec fn sorts_no_later(a: Seq<char>, b: Seq<char>) -> bool {
    a == b || name_lt(a, b)
}

proof fn lemma_field_step(na: int, nb: int, w: nat, ta: Seq<char>, tb: Seq<char>)
    requires
        w >= 1,
        0 <= na < pow10(w),
        0 <= nb < pow10(w),
        na < nb || (na == nb && sorts_no_later(ta, tb)),
    ensures
        sorts_no_later(zero_padded(na, w as int) + ta, zero_padded(nb, w as int) + tb),
{
    lemma_zero_padded_width(na, w);
    lemma_zero_padded_width(nb, w);
    if na < nb {
        lemma_zero_padded_lt(na, nb, w);
    }
    lemma_le_concat(zero_padded(na, w as int), ta, zero_padded(nb, w as int), tb);
}

proof fn lemma_sep_step(c: char, ta: Seq<char>, tb: Seq<char>)
    requires
        sorts_no_later(ta, tb),
    ensures
        sorts_no_later(seq![c] + ta, seq![c] + tb),
{
    lemma_le_concat(seq![c], ta, seq![c], tb);
}

/// Whether the date and time `a` comes no later than `b`, field by field.
spec fn fields_no_later(a: (int, int, int, int, int), b: (int, int, int, int, int)) -> bool {
    a.0 < b.0 || (a.0 == b.0 && (a.1 < b.1 || (a.1 == b.1 && (a.2 < b.2 || (a.2 == b.2 && (a.3 < b.3 || (a.3
        == b.3 && a.4 <= b.4)))))))
}

/// Whether the fields fit their columns.
spec fn fields_fit(a: (int, int, int, int, int)) -> bool {
    0 <= a.0 < 10000 && 0 <= a.1 < 100 && 0 <= a.2 < 100 && 0 <= a.3 < 100 && 0 <= a.4 < 100
}

/// The date and time fields that `timestamp_text(secs)` writes.
spec fn time_fields(secs: int) -> (int, int, int, int, int) {
    let c = civil_from_days(secs / 86400);
    let r = secs % 86400;
    (c.0, c.1, c.2, r / 3600, (r % 3600) / 60)
}

proof fn lemma_time_fields_ordered(a: int, b: int)
    requires
        0 <= a <= b < 253_402_300_800,
    ensures
        fields_no_later(time_fields(a), time_fields(b)),
        fields_fit(time_fields(a)),
        fields_fit(time_fields(b)),
{
    let da = a / 86400;
    let db = b / 86400;
    assert(da <= db);
    lemma_date_range(da);
    lemma_date_range(db);
    let ca = civil_from_days(da);
    let cb = civil_from_days(db);
    if da < db {
        if !(ca.0 < cb.0 || (ca.0 == cb.0 && (ca.1 < cb.1 || (ca.1 == cb.1 && ca.2 < cb.2)))) {
            if ca == cb {
                assert(false);
            } else {
                lemma_days_from_civil_ordered(cb.0, cb.1, cb.2, ca.0, ca.1, ca.2);
            }
        }
    } else {
        let ra = a % 86400;
        let rb = b % 86400;
        assert(ra <= rb);
        assert(ra / 3600 <= rb / 3600);
        if ra / 3600 == rb / 3600 {
            assert((ra % 3600) / 60 <= (rb % 3600) / 60);
        }
    }
}

proof fn lemma_fields_text_order(a: (int, int, int, int, int), b: (int, int, int, int, int))
    requires
        fields_fit(a),
        fields_fit(b),
        fields_no_later(a, b),
    ensures
        sorts_no_later(fields_text(a.0, a.1, a.2, a.3, a.4), fields_text(b.0, b.1, b.2, b.3, b.4)),
{
    assert(pow10(4) == 10000 && pow10(2) == 100) by {
        reveal_with_fuel(pow10, 5);
    }
    let ea = zero_padded(a.4, 2);
    let eb = zero_padded(b.4, 2);
    let t4a = seq![':'] + ea;
    let t4b = seq![':'] + eb;
    if a.4 <= b.4 {
        if a.4 < b.4 {
            lemma_zero_padded_lt(a.4, b.4, 2);
        }
        lemma_sep_step(':', ea, eb);
    }
    let p4 = a.3 < b.3 || (a.3 == b.3 && a.4 <= b.4);
    let t3a = zero_padded(a.3, 2) + t4a;
    let t3b = zero_padded(b.3, 2) + t4b;
    let t2a = seq![' '] + t3a;
    let t2b = seq![' '] + t3b;
    if p4 {
        lemma_field_step(a.3, b.3, 2, t4a, t4b);
        lemma_sep_step(' ', t3a, t3b);
    }
    let p3 = a.2 < b.2 || (a.2 == b.2 && p4);
    let t1a = zero_padded(a.2, 2) + t2a;
    let t1b = zero_padded(b.2, 2) + t2b;
    let s1a = seq!['-'] + t1a;
    let s1b = seq!['-'] + t1b;
    if p3 {
        lemma_field_step(a.2, b.2, 2, t2a, t2b);
        lemma_sep_step('-', t1a, t1b);
    }
    let p2 = a.1 < b.1 || (a.1 == b.1 && p3);
    let u1a = zero_padded(a.1, 2) + s1a;
    let u1b = zero_padded(b.1, 2) + s1b;
    let v1a = seq!['-'] + u1a;
    let v1b = seq!['-'] + u1b;
    if p2 {
        lemma_field_step(a.1, b.1, 2, s1a, s1b);
        lemma_sep_step('-', u1a, u1b);
    }
    lemma_field_step(a.0, b.0, 4, v1a, v1b);
}

proof fn lemma_regroup(a: Seq<char>, b: Seq<char>, c: Seq<char>, d: Seq<char>, e: Seq<char>)
    ensures
        a + seq!['-'] + b + seq!['-'] + c + seq![' '] + d + seq![':'] + e == a + (seq!['-'] + (b + (seq!['-'] + (c
            + (seq![' '] + (d + (seq![':'] + e))))))),
{
    assert(d + seq![':'] + e =~= d + (seq![':'] + e));
    assert(seq![' '] + d + seq![':'] + e =~= seq![' '] + (d + (seq![':'] + e)));
    assert(c + seq![' '] + d + seq![':'] + e =~= c + (seq![' '] + (d + (seq![':'] + e))));
    assert(seq!['-'] + c + seq![' '] + d + seq![':'] + e =~= seq!['-'] + (c + (seq![' '] + (d + (seq![':'] + e)))));
    assert(b + seq!['-'] + c + seq![' '] + d + seq![':'] + e =~= b + (seq!['-'] + (c + (seq![' '] + (d + (seq![':']
        + e))))));
    assert(seq!['-'] + b + seq!['-'] + c + seq![' '] + d + seq![':'] + e =~= seq!['-'] + (b + (seq!['-'] + (c + (
    seq![' '] + (d + (seq![':'] + e)))))));
    assert(a + seq!['-'] + b + seq!['-'] + c + seq![' '] + d + seq![':'] + e =~= a + (seq!['-'] + (b + (seq!['-'] + (c
        + (seq![' '] + (d + (seq![':'] + e))))))));
}

/// From 1970 to the end of year 9999, a later time never has a text that
/// sorts before that of an earlier one: the texts sort as the times do, to
/// the minute.
pub proof fn lemma_timestamp_order(a: int, b: int)
    requires
        0 <= a <= b < 253_402_300_800,
    ensures
        timestamp_text(a) == timestamp_text(b) || name_lt(timestamp_text(a), timestamp_text(b)),
{
    lemma_time_fields_ordered(a, b);
    let fa = time_fields(a);
    let fb = time_fields(b);
    lemma_fields_text_order(fa, fb);
    lemma_regroup(
        zero_padded(fa.0, 4),
        zero_padded(fa.1, 2),
        zero_padded(fa.2, 2),
        zero_padded(fa.3, 2),
        zero_padded(fa.4, 2),
    );
    lemma_regroup(
        zero_padded(fb.0, 4),
        zero_padded(fb.1, 2),
        zero_padded(fb.2, 2),
        zero_padded(fb.3, 2),
        zero_padded(fb.4, 2),
    );
    assert(timestamp_text(a) == fields_text(fa.0, fa.1, fa.2, fa.3, fa.4));
    assert(timestamp_text(b) == fields_text(fb.0, fb.1, fb.2, fb.3, fb.4));
}

} // verus!
