//! The calendar model: proleptic Gregorian dates held as plain values,
//! spreadsheet serial day counts (epoch 1899-12-30), and ISO 8601 week
//! labels. Everything is computed and proved here; no calendar work is
//! delegated.

use crate::text::{
    dec_str, dec_str_pad2, digit_val, digits_val, is_digit, lemma_dec_str_all_digits,
    lemma_digits_val_dec_str,
    push_2digit, u64_to_string,
};
use vstd::prelude::*;

verus! {

/// A calendar date. Valid dates (see [`valid_date`]) cover the years 1
/// through 9999, which bounds every arithmetic result in the crate.
#[derive(Clone, Copy, PartialEq, Eq, Structural, Debug)]
pub struct Date {
    pub year: i32,
    pub month: u8,
    pub day: u8,
}

/// An ISO 8601 week label: the week-based year and the week number.
#[derive(Clone, Copy, PartialEq, Eq, Structural, Debug)]
pub struct IsoWeek {
    pub year: i32,
    pub week: u8,
}

pub open spec fn spec_is_leap_year(y: int) -> bool {
    (y % 4 == 0 && y % 100 != 0) || y % 400 == 0
}

pub fn is_leap_year(y: i32) -> (r: bool)
    requires
        0 <= y,
    ensures
        r == spec_is_leap_year(y as int),
{
    (y % 4 == 0 && y % 100 != 0) || y % 400 == 0
}

pub open spec fn spec_days_in_month(y: int, m: int) -> int {
    if m == 2 {
        if spec_is_leap_year(y) {
            29
        } else {
            28
        }
    } else if m == 4 || m == 6 || m == 9 || m == 11 {
        30
    } else {
        31
    }
}

pub fn days_in_month(y: i32, m: u8) -> (d: u8)
    requires
        0 <= y,
        1 <= m <= 12,
    ensures
        d == spec_days_in_month(y as int, m as int),
{
    if m == 2 {
        if is_leap_year(y) {
            29
        } else {
            28
        }
    } else if m == 4 || m == 6 || m == 9 || m == 11 {
        30
    } else {
        31
    }
}

pub open spec fn year_len(y: int) -> int {
    if spec_is_leap_year(y) {
        366
    } else {
        365
    }
}

/// Days in year `y` before the first of month `m`.
pub open spec fn days_before_month(y: int, m: int) -> int
    decreases m,
{
    if m <= 1 {
        0
    } else {
        days_before_month(y, m - 1) + spec_days_in_month(y, m - 1)
    }
}

/// Days before January first of year `y`, counted from 0001-01-01.
pub open spec fn days_before_year(y: int) -> int
    decreases y,
{
    if y <= 1 {
        0
    } else {
        days_before_year(y - 1) + year_len(y - 1)
    }
}

pub open spec fn valid_date(d: Date) -> bool {
    1 <= d.year <= 9999 && 1 <= d.month <= 12 && 1 <= d.day <= spec_days_in_month(
        d.year as int,
        d.month as int,
    )
}

/// The date's position in the calendar: days since 0001-01-01 (day 0).
pub open spec fn day_index(d: Date) -> int {
    days_before_year(d.year as int) + days_before_month(d.year as int, d.month as int) + d.day - 1
}

/// The day of the year, starting at 1 for January first.
pub open spec fn ordinal(d: Date) -> int {
    days_before_month(d.year as int, d.month as int) + d.day
}

pub proof fn lemma_days_before_month_mono(y: int, m1: int, m2: int)
    requires
        m1 <= m2,
    ensures
        days_before_month(y, m1) <= days_before_month(y, m2),
    decreases m2 - m1,
{
    if m1 < m2 {
        lemma_days_before_month_mono(y, m1, m2 - 1);
    }
}

pub proof fn lemma_days_before_month_nonneg(y: int, m: int)
    ensures
        days_before_month(y, m) >= 0,
{
    if m >= 1 {
        lemma_days_before_month_mono(y, 1, m);
    } else {
        assert(days_before_month(y, m) == 0);
    }
}

/// The month lengths of a year add up to its length.
pub proof fn lemma_months_total(y: int)
    ensures
        days_before_month(y, 13) == year_len(y),
{
    reveal_with_fuel(days_before_month, 13);
}

pub proof fn lemma_days_before_month_bounds(y: int, m: int)
    requires
        1 <= m <= 13,
    ensures
        0 <= days_before_month(y, m) <= year_len(y),
{
    lemma_days_before_month_nonneg(y, m);
    lemma_days_before_month_mono(y, m, 13);
    lemma_months_total(y);
}

pub proof fn lemma_days_before_year_bounds(y: int)
    requires
        1 <= y,
    ensures
        365 * (y - 1) <= days_before_year(y) <= 366 * (y - 1),
    decreases y,
{
    if y > 1 {
        lemma_days_before_year_bounds(y - 1);
    }
}

pub proof fn lemma_days_before_year_mono(y1: int, y2: int)
    requires
        y1 <= y2,
    ensures
        days_before_year(y1) <= days_before_year(y2),
    decreases y2 - y1,
{
    if y1 < y2 {
        lemma_days_before_year_mono(y1, y2 - 1);
    }
}

/// A valid date's day index lies inside its year.
pub proof fn lemma_day_index_in_year(d: Date)
    requires
        valid_date(d),
    ensures
        days_before_year(d.year as int) <= day_index(d) < days_before_year(d.year as int)
            + year_len(d.year as int),
        1 <= ordinal(d) <= year_len(d.year as int),
{
    lemma_days_before_month_nonneg(d.year as int, d.month as int);
    assert(days_before_month(d.year as int, d.month as int + 1) == days_before_month(
        d.year as int,
        d.month as int,
    ) + spec_days_in_month(d.year as int, d.month as int));
    lemma_days_before_month_mono(d.year as int, d.month as int + 1, 13);
    lemma_months_total(d.year as int);
}

/// The smallest index that no valid date reaches.
pub open spec fn max_day_index() -> int {
    days_before_year(10000)
}

pub fn days_before_year_exec(y: i32) -> (n: i64)
    requires
        0 <= y <= 10001,
    ensures
        n == days_before_year(y as int),
{
    if y <= 1 {
        return 0;
    }
    let mut i: i32 = 1;
    let mut acc: i64 = 0;
    while i < y
        invariant
            1 <= i <= y,
            y <= 10001,
            acc == days_before_year(i as int),
        decreases y - i,
    {
        proof {
            lemma_days_before_year_bounds(i as int);
        }
        acc = acc + if is_leap_year(i) {
            366
        } else {
            365
        };
        i = i + 1;
    }
    acc
}

pub fn day_index_of(d: &Date) -> (n: i64)
    requires
        valid_date(*d),
    ensures
        n == day_index(*d),
{
    let dby = days_before_year_exec(d.year);
    proof {
        lemma_days_before_year_bounds(d.year as int);
    }
    let mut m: u8 = 1;
    let mut dbm: i64 = 0;
    while m < d.month
        invariant
            1 <= m <= d.month,
            valid_date(*d),
            dbm == days_before_month(d.year as int, m as int),
            0 <= dbm <= 366,
        decreases d.month - m,
    {
        proof {
            lemma_days_before_month_bounds(d.year as int, m as int + 1);
        }
        dbm = dbm + days_in_month(d.year, m) as i64;
        m = m + 1;
    }
    proof {
        lemma_days_before_month_bounds(d.year as int, d.month as int);
    }
    dby + dbm + d.day as i64 - 1
}

/// The spreadsheet serial-date epoch: serial day count 0.
pub open spec fn epoch_date() -> Date {
    Date { year: 1899, month: 12, day: 30 }
}

pub open spec fn epoch_index() -> int {
    day_index(epoch_date())
}

/// The serial day count of a date: days since 1899-12-30.
pub open spec fn serial_of(d: Date) -> int {
    day_index(d) - epoch_index()
}

pub proof fn lemma_epoch_bounds()
    ensures
        692770 <= epoch_index() <= 695064,
        valid_date(epoch_date()),
{
    lemma_days_before_year_bounds(1899);
    lemma_days_before_month_bounds(1899, 12);
}

fn epoch_index_exec() -> (n: i64)
    ensures
        n == epoch_index(),
{
    proof {
        lemma_epoch_bounds();
    }
    day_index_of(&Date { year: 1899, month: 12, day: 30 })
}

/// The unique valid date at a given day index, or `None` when the index
/// lies outside the supported years 1 through 9999.
pub fn date_from_day_index(abs: i64) -> (r: Option<Date>)
    ensures
        match r {
            Some(d) => valid_date(d) && day_index(d) == abs,
            None => !(0 <= abs < max_day_index()),
        },
{
    if abs < 0 {
        return None;
    }
    let limit = days_before_year_exec(10000);
    if abs >= limit {
        return None;
    }
    let mut y: i32 = 1;
    let mut acc: i64 = 0;
    loop
        invariant
            1 <= y <= 10000,
            acc == days_before_year(y as int),
            acc <= abs,
            abs < max_day_index(),
        ensures
            1 <= y <= 9999,
            acc == days_before_year(y as int),
            acc <= abs,
            abs - acc < year_len(y as int),
        decreases abs - acc,
    {
        let yl: i64 = if is_leap_year(y) {
            366
        } else {
            365
        };
        proof {
            lemma_days_before_year_bounds(10000);
            if y as int == 10000 {
                assert(days_before_year(10001) == days_before_year(10000) + year_len(10000));
                assert(acc == max_day_index());
                assert(false);
            }
        }
        if acc + yl > abs {
            break ;
        }
        acc = acc + yl;
        y = y + 1;
    }
    let doy: i64 = abs - acc;
    let mut m: u8 = 1;
    let mut macc: i64 = 0;
    loop
        invariant
            1 <= m <= 12,
            1 <= y <= 9999,
            macc == days_before_month(y as int, m as int),
            macc <= doy,
            doy < year_len(y as int),
        ensures
            1 <= m <= 12,
            1 <= y <= 9999,
            macc == days_before_month(y as int, m as int),
            macc <= doy,
            doy - macc < spec_days_in_month(y as int, m as int),
        decreases doy - macc,
    {
        let ml: i64 = days_in_month(y, m) as i64;
        if macc + ml > doy {
            break ;
        }
        proof {
            if m as int == 12 {
                lemma_months_total(y as int);
                reveal_with_fuel(days_before_month, 13);
                assert(false);
            }
        }
        macc = macc + ml;
        m = m + 1;
    }
    proof {
        assert(acc == days_before_year(y as int));
        assert(doy == abs - acc);
    }
    let day: i64 = doy - macc + 1;
    Some(Date { year: y, month: m, day: day as u8 })
}

/// Every valid date sits below the index of the first unsupported year.
pub proof fn lemma_day_index_range(d: Date)
    requires
        valid_date(d),
    ensures
        0 <= day_index(d) < max_day_index(),
{
    lemma_day_index_in_year(d);
    lemma_days_before_year_bounds(d.year as int);
    lemma_days_before_year_mono(d.year as int + 1, 10000);
}

/// The date a serial day count names, when one exists: the unique valid
/// date whose serial count equals `n`.
pub open spec fn spec_date_from_serial(n: int) -> Option<Date> {
    if exists|d: Date| valid_date(d) && #[trigger] serial_of(d) == n {
        Some(choose|d: Date| valid_date(d) && #[trigger] serial_of(d) == n)
    } else {
        None
    }
}

/// Parses a spreadsheet serial day count; `None` when the resulting date
/// would fall outside the supported years.
pub fn date_from_serial(n: i64) -> (r: Option<Date>)
    ensures
        r == spec_date_from_serial(n as int),
        match r {
            Some(d) => valid_date(d) && serial_of(d) == n,
            None => !(0 - epoch_index() <= n < max_day_index() - epoch_index()),
        },
{
    let r = date_from_serial_inner(n);
    proof {
        match r {
            Some(d) => {
                assert(exists|x: Date| valid_date(x) && #[trigger] serial_of(x) == n as int);
                let c = choose|x: Date| valid_date(x) && #[trigger] serial_of(x) == n as int;
                lemma_day_index_injective(c, d);
            },
            None => {
                if exists|x: Date| valid_date(x) && #[trigger] serial_of(x) == n as int {
                    let c = choose|x: Date| valid_date(x) && #[trigger] serial_of(x) == n as int;
                    lemma_day_index_range(c);
                    assert(false);
                }
            },
        }
    }
    r
}

fn date_from_serial_inner(n: i64) -> (r: Option<Date>)
    ensures
        match r {
            Some(d) => valid_date(d) && serial_of(d) == n,
            None => !(0 - epoch_index() <= n < max_day_index() - epoch_index()),
        },
{
    proof {
        lemma_epoch_bounds();
        lemma_days_before_year_bounds(10000);
    }
    if n < -800000 || n > 4000000 {
        return None;
    }
    let base = epoch_index_exec();
    date_from_day_index(n + base)
}

/// The serial day count of a valid date.
pub fn serial_of_date(d: &Date) -> (n: i64)
    requires
        valid_date(*d),
    ensures
        n == serial_of(*d),
{
    proof {
        lemma_epoch_bounds();
        lemma_days_before_year_bounds(d.year as int);
        lemma_days_before_month_bounds(d.year as int, d.month as int);
    }
    day_index_of(d) - epoch_index_exec()
}

/// Two valid dates with the same day index are the same date, so a serial
/// day count names exactly one calendar date.
pub proof fn lemma_day_index_injective(a: Date, b: Date)
    requires
        valid_date(a),
        valid_date(b),
        day_index(a) == day_index(b),
    ensures
        a == b,
{
    lemma_day_index_in_year(a);
    lemma_day_index_in_year(b);
    if a.year < b.year {
        lemma_days_before_year_mono(a.year as int + 1, b.year as int);
        assert(false);
    }
    if b.year < a.year {
        lemma_days_before_year_mono(b.year as int + 1, a.year as int);
        assert(false);
    }
    if a.month < b.month {
        assert(days_before_month(a.year as int, a.month as int + 1) == days_before_month(
            a.year as int,
            a.month as int,
        ) + spec_days_in_month(a.year as int, a.month as int));
        lemma_days_before_month_mono(a.year as int, a.month as int + 1, b.month as int);
        assert(false);
    }
    if b.month < a.month {
        assert(days_before_month(b.year as int, b.month as int + 1) == days_before_month(
            b.year as int,
            b.month as int,
        ) + spec_days_in_month(b.year as int, b.month as int));
        lemma_days_before_month_mono(b.year as int, b.month as int + 1, a.month as int);
        assert(false);
    }
}

/// Round trip of the serial encoding: equal serial day counts mean the
/// same calendar date, and parsing a count re-expresses it exactly.
pub proof fn lemma_serial_round_trip(d1: Date, d2: Date)
    requires
        valid_date(d1),
        valid_date(d2),
        serial_of(d1) == serial_of(d2),
    ensures
        d1 == d2,
{
    lemma_day_index_injective(d1, d2);
}

/// The day of the week as 0 (Monday) through 6 (Sunday): day 0 of the
/// calendar, 0001-01-01, is a Monday.
pub open spec fn weekday(d: Date) -> int {
    day_index(d) % 7
}

pub open spec fn jan1_weekday(y: int) -> int {
    days_before_year(y) % 7
}

/// Weeks in an ISO week-based year: 53 when the year starts on a Thursday,
/// or on a Wednesday in a leap year; otherwise 52.
pub open spec fn weeks_in_iso_year(y: int) -> int {
    if jan1_weekday(y) == 3 || (spec_is_leap_year(y) && jan1_weekday(y) == 2) {
        53
    } else {
        52
    }
}

/// The ISO 8601 week of a date, as (week-based year, week number).
pub open spec fn iso_week_and_year(d: Date) -> (int, int) {
    let w = (ordinal(d) - (weekday(d) + 1) + 10) / 7;
    if w < 1 {
        (d.year - 1, weeks_in_iso_year(d.year - 1))
    } else if w > weeks_in_iso_year(d.year as int) {
        (d.year + 1, 1)
    } else {
        (d.year as int, w)
    }
}

pub open spec fn iso_week_label(d: Date) -> IsoWeek {
    IsoWeek {
        year: iso_week_and_year(d).0 as i32,
        week: iso_week_and_year(d).1 as u8,
    }
}

fn weeks_in_iso_year_exec(y: i32) -> (r: u8)
    requires
        0 <= y <= 10000,
    ensures
        r as int == weeks_in_iso_year(y as int),
        52 <= r <= 53,
{
    proof {
        if y >= 1 {
            lemma_days_before_year_bounds(y as int);
        }
    }
    let j = days_before_year_exec(y) % 7;
    if j == 3 || (is_leap_year(y) && j == 2) {
        53
    } else {
        52
    }
}

/// The ISO week of a valid date.
pub fn iso_week_of(d: &Date) -> (w: IsoWeek)
    requires
        valid_date(*d),
    ensures
        w == iso_week_label(*d),
{
    let di = day_index_of(d);
    let dby = days_before_year_exec(d.year);
    proof {
        lemma_day_index_in_year(*d);
        lemma_days_before_year_bounds(d.year as int);
    }
    let wd: i64 = di % 7 + 1;
    let ord: i64 = di - dby + 1;
    let num: i64 = ord + 10 - wd;
    let w: i64 = num / 7;
    if w < 1 {
        let wk = weeks_in_iso_year_exec(d.year - 1);
        IsoWeek { year: d.year - 1, week: wk }
    } else if w > weeks_in_iso_year_exec(d.year) as i64 {
        IsoWeek { year: d.year + 1, week: 1 }
    } else {
        IsoWeek { year: d.year, week: w as u8 }
    }
}

/// Whether `w` is the ISO week of some day of the given month.
pub open spec fn month_has_week(y: int, m: int, w: IsoWeek) -> bool {
    exists|dt: Date|
        valid_date(dt) && dt.year == y && dt.month == m && #[trigger] iso_week_label(dt) == w
}

pub fn week_vec_contains(v: &Vec<IsoWeek>, w: IsoWeek) -> (r: bool)
    ensures
        r == v@.contains(w),
{
    let mut i: usize = 0;
    while i < v.len()
        invariant
            0 <= i <= v@.len(),
            forall|j: int| 0 <= j < i ==> v@[j] != w,
        decreases v@.len() - i,
    {
        if v[i] == w {
            return true;
        }
        i = i + 1;
    }
    false
}

/// Every ISO week that overlaps the month, each listed once: the set is
/// collected by walking every calendar day of the month.
pub fn month_iso_weeks(year: i32, month: u8) -> (ws: Vec<IsoWeek>)
    requires
        1 <= year <= 9999,
        1 <= month <= 12,
    ensures
        forall|w: IsoWeek| #[trigger]
            ws@.contains(w) <==> month_has_week(year as int, month as int, w),
        forall|i: int, j: int| 0 <= i < j < ws@.len() ==> ws@[i] != ws@[j],
{
    let dim = days_in_month(year, month);
    let mut ws: Vec<IsoWeek> = Vec::new();
    let mut day: u8 = 1;
    while day <= dim
        invariant
            1 <= day <= dim + 1,
            dim == spec_days_in_month(year as int, month as int),
            1 <= year <= 9999,
            1 <= month <= 12,
            forall|w: IsoWeek| #[trigger]
                ws@.contains(w) <==> exists|dt: Date|
                    valid_date(dt) && dt.year == year && dt.month == month && dt.day < day
                        && #[trigger] iso_week_label(dt) == w,
            forall|i: int, j: int| 0 <= i < j < ws@.len() ==> ws@[i] != ws@[j],
        decreases dim + 1 - day,
    {
        let here = Date { year, month, day };
        let w = iso_week_of(&here);
        if !week_vec_contains(&ws, w) {
            let ghost old_ws = ws@;
            ws.push(w);
            proof {
                assert(ws@ == old_ws.push(w));
                assert forall|x: IsoWeek| #[trigger] ws@.contains(x) implies (exists|dt: Date|
                    valid_date(dt) && dt.year == year && dt.month == month && dt.day < day + 1
                        && #[trigger] iso_week_label(dt) == x) by {
                    if x == w {
                        assert(valid_date(here) && here.year == year && here.month == month
                            && here.day < day + 1 && iso_week_label(here) == x);
                    } else {
                        let k = choose|k: int| 0 <= k < ws@.len() && ws@[k] == x;
                        assert(old_ws[k] == x);
                        assert(old_ws.contains(x));
                    }
                }
                assert forall|x: IsoWeek|
                    (exists|dt: Date|
                        valid_date(dt) && dt.year == year && dt.month == month && dt.day < day + 1
                            && #[trigger] iso_week_label(dt) == x) implies #[trigger] ws@.contains(
                    x,
                ) by {
                    if x == w {
                        assert(ws@[ws@.len() - 1] == x);
                    } else {
                        let dt = choose|dt: Date|
                            valid_date(dt) && dt.year == year && dt.month == month && dt.day < day
                                + 1 && #[trigger] iso_week_label(dt) == x;
                        assert(dt.day < day);
                        assert(old_ws.contains(x));
                        let k = choose|k: int| 0 <= k < old_ws.len() && old_ws[k] == x;
                        assert(ws@[k] == x);
                    }
                }
            }
        } else {
            proof {
                assert forall|x: IsoWeek|
                    (exists|dt: Date|
                        valid_date(dt) && dt.year == year && dt.month == month && dt.day < day + 1
                            && #[trigger] iso_week_label(dt) == x) implies #[trigger] ws@.contains(
                    x,
                ) by {
                    let dt = choose|dt: Date|
                        valid_date(dt) && dt.year == year && dt.month == month && dt.day < day + 1
                            && #[trigger] iso_week_label(dt) == x;
                    if dt.day == day {
                        assert(dt == here);
                        assert(x == w);
                    } else {
                        assert(dt.day < day);
                    }
                }
            }
        }
        day = day + 1;
    }
    ws
}

/// The `year-month` display label, the month zero-padded to two digits.
pub open spec fn ym_label(y: int, m: int) -> Seq<char> {
    dec_str(y) + seq!['-'] + dec_str_pad2(m)
}

/// Distinct year-months have distinct labels.
pub proof fn lemma_ym_label_injective(y1: int, m1: int, y2: int, m2: int)
    requires
        1 <= y1 <= 9999,
        1 <= m1 <= 99,
        1 <= y2 <= 9999,
        1 <= m2 <= 99,
        ym_label(y1, m1) == ym_label(y2, m2),
    ensures
        y1 == y2,
        m1 == m2,
{
    let a = dec_str(y1);
    let b = dec_str(y2);
    let p1 = dec_str_pad2(m1);
    let p2 = dec_str_pad2(m2);
    lemma_dec_str_all_digits(y1);
    lemma_dec_str_all_digits(y2);
    lemma_pad2_digits(m1);
    lemma_pad2_digits(m2);
    let l1 = ym_label(y1, m1);
    let l2 = ym_label(y2, m2);
    assert(!is_digit('-'));
    assert(l1[a.len() as int] == '-');
    assert(l2[b.len() as int] == '-');
    if a.len() < b.len() {
        assert(l2[a.len() as int] == b[a.len() as int]);
        assert(is_digit(b[a.len() as int]));
        assert(false);
    }
    if b.len() < a.len() {
        assert(l1[b.len() as int] == a[b.len() as int]);
        assert(is_digit(a[b.len() as int]));
        assert(false);
    }
    assert(a =~= l1.subrange(0, a.len() as int)) by {
        assert(forall|i: int| 0 <= i < a.len() ==> l1[i] == a[i]);
    }
    assert(b =~= l2.subrange(0, b.len() as int)) by {
        assert(forall|i: int| 0 <= i < b.len() ==> l2[i] == b[i]);
    }
    assert(a == b);
    lemma_digits_val_dec_str(y1);
    lemma_digits_val_dec_str(y2);
    assert(p1 =~= l1.subrange(a.len() as int + 1, l1.len() as int)) by {
        assert(forall|i: int| 0 <= i < p1.len() ==> l1[a.len() + 1 + i] == p1[i]);
    }
    assert(p2 =~= l2.subrange(b.len() as int + 1, l2.len() as int)) by {
        assert(forall|i: int| 0 <= i < p2.len() ==> l2[b.len() + 1 + i] == p2[i]);
    }
    assert(p1 == p2);
    lemma_pad2_value(m1);
    lemma_pad2_value(m2);
}

proof fn lemma_pad2_digits(m: int)
    requires
        0 <= m <= 99,
    ensures
        crate::text::all_digits(dec_str_pad2(m)),
        dec_str_pad2(m).len() == 2,
{
    if m <= 9 {
        assert(is_digit('0'));
        assert(is_digit(crate::text::dec_digit(m)));
        assert forall|i: int| 0 <= i < dec_str_pad2(m).len() implies is_digit(
            #[trigger] dec_str_pad2(m)[i],
        ) by {}
    } else {
        lemma_dec_str_all_digits(m);
        assert(dec_str(m) == dec_str(m / 10).push(crate::text::dec_digit(m % 10)));
        assert(dec_str(m / 10) == seq![crate::text::dec_digit(m / 10)]);
    }
}

proof fn lemma_pad2_value(m: int)
    requires
        0 <= m <= 99,
    ensures
        digits_val(dec_str_pad2(m)) == m,
{
    if m <= 9 {
        let p = dec_str_pad2(m);
        assert(p.drop_last() =~= seq!['0']);
        assert(seq!['0'].drop_last() =~= Seq::<char>::empty());
        assert(digits_val(seq!['0']) == digits_val(Seq::<char>::empty()) * 10 + digit_val('0'));
    } else {
        lemma_digits_val_dec_str(m);
    }
}

pub fn year_month_label(y: i32, m: u8) -> (s: String)
    requires
        1 <= y <= 9999,
        1 <= m <= 99,
    ensures
        s@ == ym_label(y as int, m as int),
{
    let mut out = u64_to_string(y as u64);
    proof {
        reveal_strlit("-");
    }
    out.append("-");
    push_2digit(&mut out, m);
    proof {
        assert("-"@ =~= seq!['-']);
        assert(dec_str(y as int) + "-"@ + dec_str_pad2(m as int) =~= ym_label(y as int, m as int));
    }
    out
}

} // verus!
