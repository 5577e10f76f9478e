//! Cell-level coercions of the record parser: decimal digits, price
//! text, date text in the accepted formats, and the category code table.

use crate::calendar::{
    date_from_serial, epoch_index, lemma_day_index_range, lemma_days_before_year_bounds,
    lemma_epoch_bounds, max_day_index, serial_of, spec_date_from_serial, spec_days_in_month,
    valid_date, Date,
};
use crate::cells::{cell_text, spec_cell_text, Cell};
use crate::records::{wf_record, BorrowRecord, RecView, RowParseError};
use crate::text::{
    all_digits, chars_of, digit_val, digits_val, is_digit, is_digit_char, spec_trim, str_eq,
    trim_str,
};
use vstd::prelude::*;

verus! {

/// Characters that survive currency stripping: everything but the two
/// yen signs and the thousands separator.
pub open spec fn keep_in_price(c: char) -> bool {
    c != '\u{00a5}' && c != '\u{ffe5}' && c != ','
}

pub open spec fn strip_currency(s: Seq<char>) -> Seq<char>
    decreases s.len(),
{
    if s.len() == 0 {
        Seq::<char>::empty()
    } else {
        let rest = strip_currency(s.drop_last());
        if keep_in_price(s.last()) {
            rest.push(s.last())
        } else {
            rest
        }
    }
}

fn keep_in_price_char(c: char) -> (r: bool)
    ensures
        r == keep_in_price(c),
{
    let u = c as u32;
    u != 0xa5 && u != 0xffe5 && u != 0x2c
}

fn strip_currency_exec(s: &str) -> (v: Vec<char>)
    ensures
        v@ == strip_currency(s@),
{
    let n = s.unicode_len();
    let mut v: Vec<char> = Vec::new();
    let mut i: usize = 0;
    while i < n
        invariant
            0 <= i <= n,
            n == s@.len(),
            v@ == strip_currency(s@.take(i as int)),
        decreases n - i,
    {
        let c = s.get_char(i);
        proof {
            assert(s@.take(i as int + 1).drop_last() =~= s@.take(i as int));
            assert(s@.take(i as int + 1).last() == s@[i as int]);
        }
        if keep_in_price_char(c) {
            v.push(c);
        }
        i = i + 1;
    }
    proof {
        assert(s@.take(n as int) =~= s@);
    }
    v
}

/// Index of the first decimal point, or the length when there is none.
pub open spec fn dot_pos(s: Seq<char>) -> int
    decreases s.len(),
{
    if s.len() == 0 {
        0
    } else if s[0] == '.' {
        0
    } else {
        1 + dot_pos(s.drop_first())
    }
}

pub proof fn lemma_dot_pos_le(s: Seq<char>)
    ensures
        0 <= dot_pos(s) <= s.len(),
    decreases s.len(),
{
    if s.len() > 0 && s[0] != '.' {
        lemma_dot_pos_le(s.drop_first());
    }
}

pub proof fn lemma_dot_pos_ge(s: Seq<char>, i: int)
    requires
        0 <= i <= s.len(),
        forall|j: int| 0 <= j < i ==> s[j] != '.',
    ensures
        dot_pos(s) >= i,
    decreases i,
{
    lemma_dot_pos_le(s);
    if i > 0 {
        assert(s[0] != '.');
        assert(forall|j: int| 0 <= j < i - 1 ==> s.drop_first()[j] != '.');
        lemma_dot_pos_ge(s.drop_first(), i - 1);
    }
}

pub proof fn lemma_dot_pos_at(s: Seq<char>, i: int)
    requires
        0 <= i < s.len(),
        forall|j: int| 0 <= j < i ==> s[j] != '.',
        s[i] == '.',
    ensures
        dot_pos(s) == i,
    decreases i,
{
    if i == 0 {
    } else {
        assert(s[0] != '.');
        assert(forall|j: int| 0 <= j < i - 1 ==> s.drop_first()[j] != '.');
        assert(s.drop_first()[i - 1] == '.');
        lemma_dot_pos_at(s.drop_first(), i - 1);
    }
}

/// Cents contributed by the digits after the decimal point: the first
/// two fractional digits; anything further is cut off.
pub open spec fn frac_cents(f: Seq<char>) -> int {
    if f.len() == 0 {
        0
    } else if f.len() == 1 {
        digit_val(f[0]) * 10
    } else {
        digit_val(f[0]) * 10 + digit_val(f[1])
    }
}

/// The shape a stripped price text must have: one or more digits, then
/// optionally a decimal point followed by digits only.
pub open spec fn wf_price_digits(s: Seq<char>) -> bool {
    let k = dot_pos(s);
    1 <= k && all_digits(s.take(k)) && (k >= s.len() || all_digits(s.skip(k + 1)))
}

pub open spec fn price_cents_value(s: Seq<char>) -> int {
    let k = dot_pos(s);
    let frac = if k >= s.len() {
        Seq::<char>::empty()
    } else {
        s.skip(k + 1)
    };
    digits_val(s.take(k)) * 100 + frac_cents(frac)
}

/// The cents a price text yields: currency signs and thousands
/// separators are stripped, then the digits are read; an ill-formed or
/// oversized text yields 0 rather than an error.
pub open spec fn spec_price_of_text(s0: Seq<char>) -> int {
    let s = strip_currency(spec_trim(s0));
    if wf_price_digits(s) && price_cents_value(s) <= u64::MAX {
        price_cents_value(s)
    } else {
        0
    }
}

/// The cents a cell yields as a price.
pub open spec fn spec_price_of_cell(c: Cell) -> int {
    match c {
        Cell::Num { text, floor, cents } => cents as int,
        Cell::Int(i) => if i < 0 {
            0
        } else if i * 100 > u64::MAX {
            u64::MAX as int
        } else {
            i * 100
        },
        Cell::Text(s) => spec_price_of_text(s@),
        _ => 0,
    }
}

fn price_from_text(s: &str) -> (p: u64)
    ensures
        p as int == spec_price_of_text(s@),
{
    let t = trim_str(s);
    let v = strip_currency_exec(t.as_str());
    let ghost sv = v@;
    let n = v.len();
    let mut i: usize = 0;
    let mut acc: u128 = 0;
    while i < n && *v.get(i).unwrap() != '.'
        invariant
            0 <= i <= n,
            n == sv.len(),
            v@ == sv,
            sv == strip_currency(spec_trim(s@)),
            forall|j: int| 0 <= j < i ==> sv[j] != '.' && is_digit(#[trigger] sv[j]),
            acc == if digits_val(sv.take(i as int)) > u64::MAX {
                0x1_0000_0000_0000_0000u128 as int
            } else {
                digits_val(sv.take(i as int))
            },
        decreases n - i,
    {
        let c = *v.get(i).unwrap();
        proof {
            assert(sv.take(i as int + 1).drop_last() =~= sv.take(i as int));
            assert(sv.take(i as int + 1).last() == sv[i as int]);
        }
        if !is_digit_char(c) {
            proof {
                lemma_dot_pos_ge(sv, i as int + 1);
                lemma_dot_pos_le(sv);
                assert(sv.take(dot_pos(sv))[i as int] == sv[i as int]);
                assert(!wf_price_digits(sv));
            }
            return 0;
        }
        let d = (c as u32 - 0x30) as u128;
        acc = acc * 10 + d;
        if acc > 0xffff_ffff_ffff_ffffu128 {
            acc = 0x1_0000_0000_0000_0000u128;
        }
        i = i + 1;
    }
    proof {
        if i < n {
            lemma_dot_pos_at(sv, i as int);
        } else {
            lemma_dot_pos_ge(sv, i as int);
            lemma_dot_pos_le(sv);
        }
        assert(dot_pos(sv) == i as int);
        assert(sv.take(i as int) =~= sv.take(dot_pos(sv)));
    }
    if i == 0 {
        return 0;
    }
    let k = i;
    let mut fc: u64 = 0;
    if k < n {
        let mut j: usize = k + 1;
        while j < n
            invariant
                k + 1 <= j <= n,
                n == sv.len(),
                v@ == sv,
                sv == strip_currency(spec_trim(s@)),
                k < n,
                1 <= k,
                dot_pos(sv) == k as int,
                all_digits(sv.take(k as int)),
                forall|l: int| k + 1 <= l < j ==> is_digit(#[trigger] sv[l]),
            decreases n - j,
        {
            if !is_digit_char(*v.get(j).unwrap()) {
                proof {
                    assert(sv.skip(k as int + 1)[j - (k as int + 1)] == sv[j as int]);
                    assert(!wf_price_digits(sv));
                }
                return 0;
            }
            j = j + 1;
        }
        proof {
            assert forall|l: int| 0 <= l < sv.skip(k as int + 1).len() implies is_digit(
                #[trigger] sv.skip(k as int + 1)[l],
            ) by {
                assert(sv.skip(k as int + 1)[l] == sv[l + k + 1]);
            }
        }
        if k + 1 < n {
            let c1 = *v.get(k + 1).unwrap();
            fc = (c1 as u32 - 0x30) as u64 * 10;
            proof {
                assert(sv.skip(k as int + 1)[0] == sv[k as int + 1]);
            }
            if k + 2 < n {
                let c2 = *v.get(k + 2).unwrap();
                fc = fc + (c2 as u32 - 0x30) as u64;
                proof {
                    assert(sv.skip(k as int + 1)[1] == sv[k as int + 2]);
                }
            }
        }
    }
    proof {
        assert(wf_price_digits(sv));
    }
    let tot: u128 = acc * 100 + fc as u128;
    if tot > 0xffff_ffff_ffff_ffffu128 {
        proof {
            assert(price_cents_value(sv) > u64::MAX);
        }
        0
    } else {
        tot as u64
    }
}

/// The number of consecutive digits starting at `from`.
pub open spec fn digit_run(s: Seq<char>, from: int) -> int
    decreases s.len() - from,
{
    if 0 <= from < s.len() && is_digit(s[from]) {
        1 + digit_run(s, from + 1)
    } else {
        0
    }
}

/// Reads a number of at most `cap` digits greedily at `from`: the value
/// and the position after it, or (-1, `from`) when no digit is there.
pub open spec fn num_field(s: Seq<char>, from: int, cap: int) -> (int, int) {
    let run = digit_run(s, from);
    let n = if run > cap {
        cap
    } else {
        run
    };
    if n <= 0 {
        (-1, from)
    } else {
        (digits_val(s.subrange(from, from + n)), from + n)
    }
}

pub open spec fn lit_at(s: Seq<char>, i: int, c: char) -> bool {
    0 <= i < s.len() && s[i] == c
}

/// A time-of-day tail consuming the rest of the text: a space, then
/// `H:M` and, when `with_secs` holds, `:S`; hours below 24, minutes
/// below 60, seconds up to 60. The time itself is discarded.
pub open spec fn time_tail(s: Seq<char>, from: int, with_secs: bool) -> bool {
    lit_at(s, from, ' ') && {
        let h = num_field(s, from + 1, 2).0;
        let i = num_field(s, from + 1, 2).1;
        0 <= h <= 23 && lit_at(s, i, ':') && {
            let mi = num_field(s, i + 1, 2).0;
            let j = num_field(s, i + 1, 2).1;
            0 <= mi <= 59 && if with_secs {
                lit_at(s, j, ':') && {
                    let sec = num_field(s, j + 1, 2).0;
                    let k2 = num_field(s, j + 1, 2).1;
                    0 <= sec <= 60 && k2 == s.len()
                }
            } else {
                j == s.len()
            }
        }
    }
}

/// A year-month-day shape: the year first (up to four digits), then the
/// two separators, then the tail named by `tail`: 0 the end of the
/// text, 1 a minutes time, 2 a seconds time, 3 a day mark then the end.
pub open spec fn ymd_shape(s: Seq<char>, sep1: char, sep2: char, tail: int) -> Option<
    (int, int, int),
> {
    let y = num_field(s, 0, 4).0;
    let i = num_field(s, 0, 4).1;
    if y < 0 || !lit_at(s, i, sep1) {
        None
    } else {
        let m = num_field(s, i + 1, 2).0;
        let j = num_field(s, i + 1, 2).1;
        if m < 0 || !lit_at(s, j, sep2) {
            None
        } else {
            let d = num_field(s, j + 1, 2).0;
            let k = num_field(s, j + 1, 2).1;
            if d < 0 {
                None
            } else {
                let ok = if tail == 0 {
                    k == s.len()
                } else if tail == 1 {
                    time_tail(s, k, false)
                } else if tail == 2 {
                    time_tail(s, k, true)
                } else {
                    lit_at(s, k, '日') && k + 1 == s.len()
                };
                if ok {
                    Some((y, m, d))
                } else {
                    None
                }
            }
        }
    }
}

/// A slash-separated shape with the year last: month first, or day
/// first when `day_first` holds.
pub open spec fn mdy_shape(s: Seq<char>, day_first: bool) -> Option<(int, int, int)> {
    let a = num_field(s, 0, 2).0;
    let i = num_field(s, 0, 2).1;
    if a < 0 || !lit_at(s, i, '/') {
        None
    } else {
        let b = num_field(s, i + 1, 2).0;
        let j = num_field(s, i + 1, 2).1;
        if b < 0 || !lit_at(s, j, '/') {
            None
        } else {
            let y = num_field(s, j + 1, 4).0;
            let k = num_field(s, j + 1, 4).1;
            if y < 0 || k != s.len() {
                None
            } else if day_first {
                Some((y, b, a))
            } else {
                Some((y, a, b))
            }
        }
    }
}

/// The date the three numbers name, when they form a valid one.
pub open spec fn checked_date(y: int, m: int, d: int) -> Option<Date> {
    if 1 <= y <= 9999 && 1 <= m <= 12 && 1 <= d <= spec_days_in_month(y, m) {
        Some(Date { year: y as i32, month: m as u8, day: d as u8 })
    } else {
        None
    }
}

pub open spec fn shape_date(o: Option<(int, int, int)>) -> Option<Date> {
    match o {
        None => None,
        Some(t) => checked_date(t.0, t.1, t.2),
    }
}

/// A bare serial-number text: an optional sign, digits, and optionally
/// a decimal point followed by digits that are cut off.
pub open spec fn wf_serial_text(s: Seq<char>) -> bool {
    let body = if s.len() > 0 && (s[0] == '-' || s[0] == '+') {
        s.drop_first()
    } else {
        s
    };
    wf_price_digits(body)
}

/// The whole-day value of a serial-number text, rounded toward zero.
pub open spec fn serial_text_value(s: Seq<char>) -> int {
    let neg = s.len() > 0 && s[0] == '-';
    let body = if s.len() > 0 && (s[0] == '-' || s[0] == '+') {
        s.drop_first()
    } else {
        s
    };
    let v = digits_val(body.take(dot_pos(body)));
    if neg {
        -v
    } else {
        v
    }
}

pub open spec fn serial_text_date(s: Seq<char>) -> Option<Date> {
    if wf_serial_text(s) {
        spec_date_from_serial(serial_text_value(s))
    } else {
        None
    }
}

/// The date a free text names. The formats are tried in a fixed order:
/// year-month-day with `-`, with `/`, and with the CJK date marks; then
/// month/day/year and day/month/year; then the same year-first shapes
/// carrying a time of day; and last a bare serial day count.
pub open spec fn spec_date_of_text(s0: Seq<char>) -> Option<Date> {
    let s = spec_trim(s0);
    let t1 = shape_date(ymd_shape(s, '-', '-', 0));
    let t2 = shape_date(ymd_shape(s, '/', '/', 0));
    let t3 = shape_date(ymd_shape(s, '年', '月', 3));
    let t4 = shape_date(mdy_shape(s, false));
    let t5 = shape_date(mdy_shape(s, true));
    let t6 = shape_date(ymd_shape(s, '-', '-', 2));
    let t7 = shape_date(ymd_shape(s, '/', '/', 2));
    let t8 = shape_date(ymd_shape(s, '-', '-', 1));
    let t9 = shape_date(ymd_shape(s, '/', '/', 1));
    if t1 is Some {
        t1
    } else if t2 is Some {
        t2
    } else if t3 is Some {
        t3
    } else if t4 is Some {
        t4
    } else if t5 is Some {
        t5
    } else if t6 is Some {
        t6
    } else if t7 is Some {
        t7
    } else if t8 is Some {
        t8
    } else if t9 is Some {
        t9
    } else {
        serial_text_date(s)
    }
}

spec fn pow10(n: int) -> int
    decreases n,
{
    if n <= 0 {
        1
    } else {
        10 * pow10(n - 1)
    }
}

proof fn lemma_digits_val_bounds(s: Seq<char>)
    requires
        forall|i: int| 0 <= i < s.len() ==> is_digit(#[trigger] s[i]),
    ensures
        0 <= digits_val(s) < pow10(s.len() as int),
    decreases s.len(),
{
    if s.len() > 0 {
        lemma_digits_val_bounds(s.drop_last());
    }
}

fn num_field_exec(v: &Vec<char>, from: usize, cap: usize) -> (r: (i64, usize))
    requires
        from <= v@.len(),
        1 <= cap <= 4,
    ensures
        r.0 == num_field(v@, from as int, cap as int).0,
        r.1 as int == num_field(v@, from as int, cap as int).1,
        -1 <= r.0 <= 9999,
        from <= r.1 <= v@.len(),
{
    let n = v.len();
    let rem = n - from;
    let end: usize = if rem > cap {
        from + cap
    } else {
        n
    };
    let mut p: usize = from;
    let mut acc: i64 = 0;
    while p < end && is_digit_char(*v.get(p).unwrap())
        invariant
            from <= p <= end <= n,
            n == v@.len(),
            end - from <= cap <= 4,
            (end - from == cap) || end == n,
            digit_run(v@, from as int) == (p - from) + digit_run(v@, p as int),
            acc == digits_val(v@.subrange(from as int, p as int)),
            0 <= acc < pow10(p - from),
            forall|j: int| from <= j < p ==> is_digit(#[trigger] v@[j]),
        decreases end - p,
    {
        let c = *v.get(p).unwrap();
        proof {
            assert(digit_run(v@, p as int) == 1 + digit_run(v@, p as int + 1));
            assert(v@.subrange(from as int, p as int + 1).drop_last() =~= v@.subrange(
                from as int,
                p as int,
            ));
            assert(v@.subrange(from as int, p as int + 1).last() == v@[p as int]);
            reveal_with_fuel(pow10, 5);
        }
        acc = acc * 10 + (c as u32 - 0x30) as i64;
        p = p + 1;
    }
    let cnt = p - from;
    proof {
        reveal_with_fuel(pow10, 5);
        let run = digit_run(v@, from as int);
        if p < end || end == n {
            if p < n {
                assert(digit_run(v@, p as int) == 0);
            } else {
                assert(digit_run(v@, p as int) == 0);
            }
            assert(run == cnt);
        } else {
            assert(cnt == cap);
            lemma_digit_run_nonneg(v@, p as int);
            assert(run >= cap);
        }
    }
    if cnt == 0 {
        (-1, from)
    } else {
        (acc, p)
    }
}

proof fn lemma_digit_run_nonneg(s: Seq<char>, from: int)
    ensures
        digit_run(s, from) >= 0,
    decreases s.len() - from,
{
    if 0 <= from < s.len() && is_digit(s[from]) {
        lemma_digit_run_nonneg(s, from + 1);
    }
}

fn lit_at_exec(v: &Vec<char>, i: usize, c: char) -> (r: bool)
    ensures
        r == lit_at(v@, i as int, c),
{
    i < v.len() && *v.get(i).unwrap() == c
}

fn time_tail_exec(v: &Vec<char>, from: usize, with_secs: bool) -> (r: bool)
    requires
        from <= v@.len(),
    ensures
        r == time_tail(v@, from as int, with_secs),
{
    let n = v.len();
    if !lit_at_exec(v, from, ' ') {
        return false;
    }
    let hf = num_field_exec(v, from + 1, 2);
    if hf.0 < 0 || hf.0 > 23 {
        return false;
    }
    if !lit_at_exec(v, hf.1, ':') {
        return false;
    }
    let mf = num_field_exec(v, hf.1 + 1, 2);
    if mf.0 < 0 || mf.0 > 59 {
        return false;
    }
    if with_secs {
        if !lit_at_exec(v, mf.1, ':') {
            return false;
        }
        let sf = num_field_exec(v, mf.1 + 1, 2);
        sf.0 >= 0 && sf.0 <= 60 && sf.1 == n
    } else {
        mf.1 == n
    }
}

fn ymd_shape_exec(v: &Vec<char>, sep1: char, sep2: char, tail: u8) -> (r: Option<(i64, i64, i64)>)
    requires
        tail <= 3,
    ensures
        match r {
            Some(t) => ymd_shape(v@, sep1, sep2, tail as int) == Some(
                (t.0 as int, t.1 as int, t.2 as int),
            ) && 0 <= t.0 <= 9999 && 0 <= t.1 <= 9999 && 0 <= t.2 <= 9999,
            None => ymd_shape(v@, sep1, sep2, tail as int) is None,
        },
{
    let yf = num_field_exec(v, 0, 4);
    if yf.0 < 0 || !lit_at_exec(v, yf.1, sep1) {
        return None;
    }
    let mf = num_field_exec(v, yf.1 + 1, 2);
    if mf.0 < 0 || !lit_at_exec(v, mf.1, sep2) {
        return None;
    }
    let df = num_field_exec(v, mf.1 + 1, 2);
    if df.0 < 0 {
        return None;
    }
    let ok: bool = if tail == 0 {
        df.1 == v.len()
    } else if tail == 1 {
        time_tail_exec(v, df.1, false)
    } else if tail == 2 {
        time_tail_exec(v, df.1, true)
    } else {
        lit_at_exec(v, df.1, '日') && df.1 + 1 == v.len()
    };
    if ok {
        Some((yf.0, mf.0, df.0))
    } else {
        None
    }
}

fn mdy_shape_exec(v: &Vec<char>, day_first: bool) -> (r: Option<(i64, i64, i64)>)
    ensures
        match r {
            Some(t) => mdy_shape(v@, day_first) == Some((t.0 as int, t.1 as int, t.2 as int)) && 0
                <= t.0 <= 9999 && 0 <= t.1 <= 9999 && 0 <= t.2 <= 9999,
            None => mdy_shape(v@, day_first) is None,
        },
{
    let af = num_field_exec(v, 0, 2);
    if af.0 < 0 || !lit_at_exec(v, af.1, '/') {
        return None;
    }
    let bf = num_field_exec(v, af.1 + 1, 2);
    if bf.0 < 0 || !lit_at_exec(v, bf.1, '/') {
        return None;
    }
    let yf = num_field_exec(v, bf.1 + 1, 4);
    if yf.0 < 0 || yf.1 != v.len() {
        return None;
    }
    if day_first {
        Some((yf.0, bf.0, af.0))
    } else {
        Some((yf.0, af.0, bf.0))
    }
}

fn checked_date_exec(y: i64, m: i64, d: i64) -> (r: Option<Date>)
    requires
        0 <= y <= 9999,
        0 <= m <= 9999,
        0 <= d <= 9999,
    ensures
        r == checked_date(y as int, m as int, d as int),
        r matches Some(d) ==> valid_date(d),
{
    if 1 <= y && 1 <= m && m <= 12 {
        let dim = crate::calendar::days_in_month(y as i32, m as u8);
        if 1 <= d && d <= dim as i64 {
            Some(Date { year: y as i32, month: m as u8, day: d as u8 })
        } else {
            None
        }
    } else {
        None
    }
}

fn shape_date_exec(o: Option<(i64, i64, i64)>, Ghost(so): Ghost<Option<(int, int, int)>>) -> (r:
    Option<Date>)
    requires
        match o {
            Some(t) => so == Some((t.0 as int, t.1 as int, t.2 as int)) && 0 <= t.0 <= 9999 && 0
                <= t.1 <= 9999 && 0 <= t.2 <= 9999,
            None => so is None,
        },
    ensures
        r == shape_date(so),
        r matches Some(d) ==> valid_date(d),
{
    match o {
        Some(t) => checked_date_exec(t.0, t.1, t.2),
        None => None,
    }
}

/// A serial day count outside the supported years names no date.
proof fn lemma_serial_out_of_range(n: int)
    requires
        n < 0 - epoch_index() || n >= max_day_index() - epoch_index(),
    ensures
        spec_date_from_serial(n) is None,
{
    if exists|d: Date| valid_date(d) && #[trigger] serial_of(d) == n {
        let d = choose|d: Date| valid_date(d) && #[trigger] serial_of(d) == n;
        lemma_day_index_range(d);
        assert(false);
    }
}

fn serial_from_chars(v: &Vec<char>) -> (r: Option<Date>)
    ensures
        r == serial_text_date(v@),
{
    let ghost sv = v@;
    let n = v.len();
    let mut o: usize = 0;
    let mut neg = false;
    if n > 0 {
        let c0 = *v.get(0).unwrap();
        if c0 == '-' {
            neg = true;
            o = 1;
        } else if c0 == '+' {
            o = 1;
        }
    }
    let ghost body = if o == 1 {
        sv.drop_first()
    } else {
        sv
    };
    proof {
        assert forall|x: int| 0 <= x < body.len() implies body[x] == sv[x + o] by {}
    }
    let mut i: usize = o;
    let mut acc: i64 = 0;
    while i < n && *v.get(i).unwrap() != '.'
        invariant
            o <= i <= n,
            o <= 1,
            n == sv.len(),
            v@ == sv,
            o == 1 ==> body == sv.drop_first(),
            o == 0 ==> body == sv,
            (o == 1) == (sv.len() > 0 && (sv[0] == '-' || sv[0] == '+')),
            neg == (sv.len() > 0 && sv[0] == '-'),
            body.len() == n - o,
            forall|x: int| 0 <= x < body.len() ==> body[x] == sv[x + o],
            forall|j: int| 0 <= j < i - o ==> body[j] != '.' && is_digit(#[trigger] body[j]),
            acc == if digits_val(body.take(i - o)) > 10000000 {
                10000001int
            } else {
                digits_val(body.take(i - o))
            },
            0 <= acc <= 10000001,
        decreases n - i,
    {
        let c = *v.get(i).unwrap();
        proof {
            assert(body[i - o] == sv[i as int]);
            assert(body.take(i - o + 1).drop_last() =~= body.take(i - o));
            assert(body.take(i - o + 1).last() == body[i - o]);
        }
        if !is_digit_char(c) {
            proof {
                lemma_dot_pos_ge(body, i - o + 1);
                lemma_dot_pos_le(body);
                assert(body.take(dot_pos(body))[i - o] == body[i - o]);
                assert(!wf_price_digits(body));
            }
            return None;
        }
        acc = acc * 10 + (c as u32 - 0x30) as i64;
        if acc > 10000000 {
            acc = 10000001;
        }
        i = i + 1;
    }
    proof {
        if i < n {
            assert(body[i - o] == sv[i as int]);
            lemma_dot_pos_at(body, i - o);
        } else {
            lemma_dot_pos_ge(body, i - o);
            lemma_dot_pos_le(body);
        }
        assert(dot_pos(body) == i - o);
    }
    if i == o {
        return None;
    }
    let k = i;
    if k < n {
        let mut j: usize = k + 1;
        while j < n
            invariant
                k + 1 <= j <= n,
                n == sv.len(),
                v@ == sv,
                o <= 1,
                o < k < n,
                o == 1 ==> body == sv.drop_first(),
                o == 0 ==> body == sv,
                (o == 1) == (sv.len() > 0 && (sv[0] == '-' || sv[0] == '+')),
                neg == (sv.len() > 0 && sv[0] == '-'),
                body.len() == n - o,
                forall|x: int| 0 <= x < body.len() ==> body[x] == sv[x + o],
                dot_pos(body) == k - o,
                forall|l: int| k + 1 <= l < j ==> is_digit(#[trigger] sv[l]),
            decreases n - j,
        {
            if !is_digit_char(*v.get(j).unwrap()) {
                proof {
                    assert(body.skip(k - o + 1)[j - (k as int + 1)] == sv[j as int]);
                    assert(!wf_price_digits(body));
                }
                return None;
            }
            j = j + 1;
        }
        proof {
            assert forall|l: int| 0 <= l < body.skip(k - o + 1).len() implies is_digit(
                #[trigger] body.skip(k - o + 1)[l],
            ) by {
                assert(body.skip(k - o + 1)[l] == sv[l + k + 1]);
            }
        }
    }
    proof {
        assert(wf_price_digits(body));
        assert(body.take(dot_pos(body)) =~= body.take(k - o));
    }
    let val: i64 = if neg {
        -acc
    } else {
        acc
    };
    let r = date_from_serial(val);
    proof {
        lemma_epoch_bounds();
        lemma_days_before_year_bounds(10000);
        let true_val = serial_text_value(sv);
        if acc == 10000001 {
            assert(digits_val(body.take(k - o)) > 10000000);
            if neg {
                assert(true_val < 0 - epoch_index());
            } else {
                assert(true_val >= max_day_index() - epoch_index());
            }
            lemma_serial_out_of_range(true_val);
            lemma_serial_out_of_range(val as int);
            assert(r is None);
        } else {
            assert(val == true_val);
        }
    }
    r
}

/// Parses a date from free text: the fixed format list in order, then
/// a bare serial day count.
pub fn date_of_text(s: &str) -> (r: Option<Date>)
    ensures
        r == spec_date_of_text(s@),
        r matches Some(d) ==> valid_date(d),
{
    let t = trim_str(s);
    let v = chars_of(t.as_str());
    let s1 = ymd_shape_exec(&v, '-', '-', 0);
    let c1 = shape_date_exec(s1, Ghost(ymd_shape(v@, '-', '-', 0)));
    if c1.is_some() {
        return c1;
    }
    let s2 = ymd_shape_exec(&v, '/', '/', 0);
    let c2 = shape_date_exec(s2, Ghost(ymd_shape(v@, '/', '/', 0)));
    if c2.is_some() {
        return c2;
    }
    let s3 = ymd_shape_exec(&v, '年', '月', 3);
    let c3 = shape_date_exec(s3, Ghost(ymd_shape(v@, '年', '月', 3)));
    if c3.is_some() {
        return c3;
    }
    let s4 = mdy_shape_exec(&v, false);
    let c4 = shape_date_exec(s4, Ghost(mdy_shape(v@, false)));
    if c4.is_some() {
        return c4;
    }
    let s5 = mdy_shape_exec(&v, true);
    let c5 = shape_date_exec(s5, Ghost(mdy_shape(v@, true)));
    if c5.is_some() {
        return c5;
    }
    let s6 = ymd_shape_exec(&v, '-', '-', 2);
    let c6 = shape_date_exec(s6, Ghost(ymd_shape(v@, '-', '-', 2)));
    if c6.is_some() {
        return c6;
    }
    let s7 = ymd_shape_exec(&v, '/', '/', 2);
    let c7 = shape_date_exec(s7, Ghost(ymd_shape(v@, '/', '/', 2)));
    if c7.is_some() {
        return c7;
    }
    let s8 = ymd_shape_exec(&v, '-', '-', 1);
    let c8 = shape_date_exec(s8, Ghost(ymd_shape(v@, '-', '-', 1)));
    if c8.is_some() {
        return c8;
    }
    let s9 = ymd_shape_exec(&v, '/', '/', 1);
    let c9 = shape_date_exec(s9, Ghost(ymd_shape(v@, '/', '/', 1)));
    if c9.is_some() {
        return c9;
    }
    let rs = serial_from_chars(&v);
    proof {
        if rs is Some {
            let d = choose|d: Date| valid_date(d) && #[trigger] serial_of(d) == serial_text_value(
                v@,
            );
        }
    }
    rs
}

/// The fixed category code table: a short code maps to its display
/// name, and a code outside the table passes through unchanged.
pub open spec fn spec_category_name(code: Seq<char>) -> Seq<char> {
    if code == "BLG"@ {
        "双语读物"@
    } else if code == "CCM"@ {
        "中文漫画"@
    } else if code == "CFI"@ {
        "中文小说"@
    } else if code == "CHP"@ {
        "中文低幼"@
    } else if code == "CNF"@ {
        "中文科普"@
    } else if code == "CPB"@ {
        "中文绘本"@
    } else if code == "CPU"@ {
        "中文立体读物"@
    } else if code == "CPY"@ {
        "拼音读物"@
    } else if code == "CRF"@ {
        "中文家长用书"@
    } else if code == "CYX"@ {
        "中文音像(书)"@
    } else if code == "ECM"@ {
        "英文漫画"@
    } else if code == "EER"@ {
        "英文分级读物"@
    } else if code == "EFI"@ {
        "英文小说"@
    } else if code == "EHP"@ {
        "英文低幼"@
    } else if code == "ENF"@ {
        "英文科普"@
    } else if code == "EPB"@ {
        "英文绘本"@
    } else if code == "EPU"@ {
        "英文立体读物"@
    } else if code == "ERF"@ {
        "英文家长用书"@
    } else if code == "EYX"@ {
        "英文音像(书)"@
    } else {
        code
    }
}

/// Looks a category code up in the fixed table.
pub fn categorycode2name(code: &str) -> (name: String)
    ensures
        name@ == spec_category_name(code@),
{
    if str_eq(code, "BLG") {
        "双语读物".to_owned()
    } else if str_eq(code, "CCM") {
        "中文漫画".to_owned()
    } else if str_eq(code, "CFI") {
        "中文小说".to_owned()
    } else if str_eq(code, "CHP") {
        "中文低幼".to_owned()
    } else if str_eq(code, "CNF") {
        "中文科普".to_owned()
    } else if str_eq(code, "CPB") {
        "中文绘本".to_owned()
    } else if str_eq(code, "CPU") {
        "中文立体读物".to_owned()
    } else if str_eq(code, "CPY") {
        "拼音读物".to_owned()
    } else if str_eq(code, "CRF") {
        "中文家长用书".to_owned()
    } else if str_eq(code, "CYX") {
        "中文音像(书)".to_owned()
    } else if str_eq(code, "ECM") {
        "英文漫画".to_owned()
    } else if str_eq(code, "EER") {
        "英文分级读物".to_owned()
    } else if str_eq(code, "EFI") {
        "英文小说".to_owned()
    } else if str_eq(code, "EHP") {
        "英文低幼".to_owned()
    } else if str_eq(code, "ENF") {
        "英文科普".to_owned()
    } else if str_eq(code, "EPB") {
        "英文绘本".to_owned()
    } else if str_eq(code, "EPU") {
        "英文立体读物".to_owned()
    } else if str_eq(code, "ERF") {
        "英文家长用书".to_owned()
    } else if str_eq(code, "EYX") {
        "英文音像(书)".to_owned()
    } else {
        code.to_owned()
    }
}

/// The price of a cell in cents: numeric cells directly, text through
/// [`spec_price_of_text`], anything else 0.
pub fn price_cents_of_cell(c: &Cell) -> (p: u64)
    ensures
        p as int == spec_price_of_cell(*c),
{
    match c {
        Cell::Num { cents, .. } => *cents,
        Cell::Int(i) => {
            if *i < 0 {
                0
            } else {
                let wide: u128 = (*i as u128) * 100;
                if wide > 0xffff_ffff_ffff_ffffu128 {
                    u64::MAX
                } else {
                    wide as u64
                }
            }
        },
        Cell::Text(s) => price_from_text(s.as_str()),
        _ => 0,
    }
}

/// The date a cell names: numeric cells as serial day counts, text
/// through the format list, anything else no date.
pub open spec fn spec_date_of_cell(c: Cell) -> Option<Date> {
    match c {
        Cell::Empty => None,
        Cell::Text(s) => spec_date_of_text(s@),
        Cell::Int(i) => spec_date_from_serial(i as int),
        Cell::Num { text, floor, cents } => spec_date_from_serial(floor as int),
        Cell::Stamp { text, floor } => spec_date_from_serial(floor as int),
        Cell::Other(s) => None,
    }
}

pub fn date_of_cell(c: &Cell) -> (r: Option<Date>)
    ensures
        r == spec_date_of_cell(*c),
        r matches Some(d) ==> valid_date(d),
{
    match c {
        Cell::Empty => None,
        Cell::Text(s) => date_of_text(s.as_str()),
        Cell::Int(i) => date_from_serial(*i),
        Cell::Num { floor, .. } => date_from_serial(*floor),
        Cell::Stamp { floor, .. } => date_from_serial(*floor),
        Cell::Other(_) => None,
    }
}

/// What one borrow-history row yields: a record, or the reason it was
/// rejected. The fixed layout is positional: column 1 the reader name,
/// 3 the title, 4 the author, 6 the price, 7 the category code, 8 the
/// borrow date, 9 the optional return date.
pub open spec fn spec_parse_row(row: Seq<Cell>, src: Seq<char>) -> Result<RecView, RowParseError> {
    if row.len() < 8 {
        Err(RowParseError::TooShort)
    } else if row.len() <= 8 {
        Err(RowParseError::MissingBorrowDate)
    } else {
        match spec_date_of_cell(row[8]) {
            None => Err(RowParseError::InvalidBorrowDate),
            Some(bd) => {
                let name = spec_trim(spec_cell_text(row[1]));
                let title = spec_trim(spec_cell_text(row[3]));
                if name.len() == 0 {
                    Err(RowParseError::EmptyReaderName)
                } else if title.len() == 0 {
                    Err(RowParseError::EmptyBookTitle)
                } else {
                    Ok(
                        RecView {
                            reader_name: name,
                            book_title: title,
                            author: spec_trim(spec_cell_text(row[4])),
                            category: spec_category_name(spec_trim(spec_cell_text(row[7]))),
                            borrow_date: bd,
                            return_date: if row.len() > 9 && spec_trim(
                                spec_cell_text(row[9]),
                            ).len() > 0 {
                                spec_date_of_cell(row[9])
                            } else {
                                None
                            },
                            price_cents: spec_price_of_cell(row[6]),
                            file_source: src,
                        },
                    )
                }
            },
        }
    }
}

/// Turns one raw row into a borrow record, or fails with the row-level
/// reason. A failing return date degrades to "no return date" instead
/// of failing the row.
pub fn parse_borrow_record(row: &Vec<Cell>, file_path: &str) -> (r: Result<
    BorrowRecord,
    RowParseError,
>)
    ensures
        match r {
            Ok(rec) => spec_parse_row(row@, file_path@) == Ok::<RecView, RowParseError>(rec@)
                && wf_record(rec@),
            Err(e) => spec_parse_row(row@, file_path@) == Err::<RecView, RowParseError>(e),
        },
{
    if row.len() < 8 {
        return Err(RowParseError::TooShort);
    }
    if row.len() <= 8 {
        return Err(RowParseError::MissingBorrowDate);
    }
    let bd = match date_of_cell(row.get(8).unwrap()) {
        Some(d) => d,
        None => {
            return Err(RowParseError::InvalidBorrowDate);
        },
    };
    let name = trim_str(cell_text(row.get(1).unwrap()).as_str());
    let title = trim_str(cell_text(row.get(3).unwrap()).as_str());
    if name.as_str().is_empty() {
        return Err(RowParseError::EmptyReaderName);
    }
    if title.as_str().is_empty() {
        return Err(RowParseError::EmptyBookTitle);
    }
    let author = trim_str(cell_text(row.get(4).unwrap()).as_str());
    let category = categorycode2name(trim_str(cell_text(row.get(7).unwrap()).as_str()).as_str());
    let return_date: Option<Date> = if row.len() > 9 {
        let rtext = trim_str(cell_text(row.get(9).unwrap()).as_str());
        if rtext.as_str().is_empty() {
            None
        } else {
            date_of_cell(row.get(9).unwrap())
        }
    } else {
        None
    };
    let price_cents = price_cents_of_cell(row.get(6).unwrap());
    Ok(
        BorrowRecord {
            reader_name: name,
            book_title: title,
            author,
            category,
            borrow_date: bd,
            return_date,
            price_cents,
            file_source: file_path.to_owned(),
        },
    )
}

} // verus!
