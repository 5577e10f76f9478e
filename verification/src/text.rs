//! Small text utilities shared by the parsers and the report fields:
//! white-space trimming and decimal rendering of integers.

use vstd::prelude::*;

verus! {

/// The Unicode white-space characters, as `str::trim` removes them.
pub open spec fn is_space(c: char) -> bool {
    c == ' ' || c == '\t' || c == '\n' || c == '\r' || (c as u32) == 0x0b || (c as u32) == 0x0c
        || (c as u32) == 0x85 || (c as u32) == 0xa0 || (c as u32) == 0x1680 || ((c as u32) >= 0x2000
        && (c as u32) <= 0x200a) || (c as u32) == 0x2028 || (c as u32) == 0x2029 || (c as u32)
        == 0x202f || (c as u32) == 0x205f || (c as u32) == 0x3000
}

pub fn is_space_char(c: char) -> (r: bool)
    ensures
        r == is_space(c),
{
    let u = c as u32;
    u == 0x20 || u == 0x09 || u == 0x0a || u == 0x0d || u == 0x0b || u == 0x0c || u == 0x85 || u
        == 0xa0 || u == 0x1680 || (u >= 0x2000 && u <= 0x200a) || u == 0x2028 || u == 0x2029 || u
        == 0x202f || u == 0x205f || u == 0x3000
}

/// The sequence with its leading white space removed.
pub open spec fn trim_front(s: Seq<char>) -> Seq<char>
    decreases s.len(),
{
    if s.len() > 0 && is_space(s[0]) {
        trim_front(s.drop_first())
    } else {
        s
    }
}

/// The sequence with its trailing white space removed.
pub open spec fn trim_back(s: Seq<char>) -> Seq<char>
    decreases s.len(),
{
    if s.len() > 0 && is_space(s.last()) {
        trim_back(s.drop_last())
    } else {
        s
    }
}

/// The sequence with white space removed from both ends.
pub open spec fn spec_trim(s: Seq<char>) -> Seq<char> {
    trim_back(trim_front(s))
}

/// Copies `s` without its leading and trailing white space.
pub fn trim_str(s: &str) -> (t: String)
    ensures
        t@ == spec_trim(s@),
{
    let n = s.unicode_len();
    proof {
        assert(s@.subrange(0, n as int) =~= s@);
    }
    let mut start: usize = 0;
    while start < n && is_space_char(s.get_char(start))
        invariant
            0 <= start <= n,
            n == s@.len(),
            trim_front(s@) == trim_front(s@.subrange(start as int, n as int)),
        decreases n - start,
    {
        proof {
            assert(s@.subrange(start as int, n as int).drop_first() =~= s@.subrange(
                start as int + 1,
                n as int,
            ));
        }
        start = start + 1;
    }
    proof {
        if start == n {
            assert(s@.subrange(start as int, n as int) =~= Seq::<char>::empty());
        }
        assert(trim_front(s@) == s@.subrange(start as int, n as int));
    }
    let mut end: usize = n;
    while end > start && is_space_char(s.get_char(end - 1))
        invariant
            start <= end <= n,
            n == s@.len(),
            trim_front(s@) == s@.subrange(start as int, n as int),
            trim_back(s@.subrange(start as int, n as int)) == trim_back(
                s@.subrange(start as int, end as int),
            ),
        decreases end,
    {
        proof {
            assert(s@.subrange(start as int, end as int).drop_last() =~= s@.subrange(
                start as int,
                end as int - 1,
            ));
        }
        end = end - 1;
    }
    proof {
        if end == start {
            assert(s@.subrange(start as int, end as int) =~= Seq::<char>::empty());
        }
        assert(spec_trim(s@) == s@.subrange(start as int, end as int));
    }
    s.substring_char(start, end).to_owned()
}

/// Character-for-character equality of two string slices.
pub fn str_eq(a: &str, b: &str) -> (r: bool)
    ensures
        r == (a@ == b@),
{
    let la = a.unicode_len();
    let lb = b.unicode_len();
    if la != lb {
        return false;
    }
    let mut i: usize = 0;
    while i < la
        invariant
            0 <= i <= la,
            la == a@.len(),
            lb == b@.len(),
            la == lb,
            forall|j: int| 0 <= j < i ==> a@[j] == b@[j],
        decreases la - i,
    {
        if a.get_char(i) != b.get_char(i) {
            return false;
        }
        i = i + 1;
    }
    proof {
        assert(a@ =~= b@);
    }
    true
}

/// Copies the characters of a string slice into a vector.
pub fn chars_of(s: &str) -> (v: Vec<char>)
    ensures
        v@ == s@,
{
    let n = s.unicode_len();
    let mut v: Vec<char> = Vec::new();
    let mut i: usize = 0;
    while i < n
        invariant
            0 <= i <= n,
            n == s@.len(),
            v@ == s@.take(i as int),
        decreases n - i,
    {
        v.push(s.get_char(i));
        proof {
            assert(s@.take(i as int + 1) =~= s@.take(i as int).push(s@[i as int]));
        }
        i = i + 1;
    }
    proof {
        assert(s@.take(n as int) =~= s@);
    }
    v
}

pub open spec fn is_digit(c: char) -> bool {
    (c as u32) >= 0x30 && (c as u32) <= 0x39
}

pub open spec fn digit_val(c: char) -> int {
    (c as u32) - 0x30
}

pub fn is_digit_char(c: char) -> (r: bool)
    ensures
        r == is_digit(c),
{
    let u = c as u32;
    u >= 0x30 && u <= 0x39
}

pub open spec fn all_digits(s: Seq<char>) -> bool {
    forall|i: int| 0 <= i < s.len() ==> is_digit(#[trigger] s[i])
}

/// The value of a digit string, most significant digit first.
pub open spec fn digits_val(s: Seq<char>) -> int
    decreases s.len(),
{
    if s.len() == 0 {
        0
    } else {
        digits_val(s.drop_last()) * 10 + digit_val(s.last())
    }
}

/// The decimal digit for a value between 0 and 9.
pub open spec fn dec_digit(d: int) -> char {
    if d == 0 {
        '0'
    } else if d == 1 {
        '1'
    } else if d == 2 {
        '2'
    } else if d == 3 {
        '3'
    } else if d == 4 {
        '4'
    } else if d == 5 {
        '5'
    } else if d == 6 {
        '6'
    } else if d == 7 {
        '7'
    } else if d == 8 {
        '8'
    } else {
        '9'
    }
}

/// The decimal numeral of a non-negative value, most significant digit first.
pub open spec fn dec_str(n: int) -> Seq<char>
    decreases n,
{
    if n <= 9 {
        seq![dec_digit(n)]
    } else {
        dec_str(n / 10).push(dec_digit(n % 10))
    }
}

/// The numeral of a value below 100, padded to two digits.
pub open spec fn dec_str_pad2(n: int) -> Seq<char> {
    if n <= 9 {
        seq!['0', dec_digit(n)]
    } else {
        dec_str(n)
    }
}

fn push_digit(out: &mut String, d: u8)
    requires
        d <= 9,
    ensures
        final (out)@ == old(out)@.push(dec_digit(d as int)),
{
    if d == 0 {
        proof {
            reveal_strlit("0");
        }
        out.append("0");
        assert(old(out)@ + "0"@ =~= old(out)@.push('0'));
    } else if d == 1 {
        proof {
            reveal_strlit("1");
        }
        out.append("1");
        assert(old(out)@ + "1"@ =~= old(out)@.push('1'));
    } else if d == 2 {
        proof {
            reveal_strlit("2");
        }
        out.append("2");
        assert(old(out)@ + "2"@ =~= old(out)@.push('2'));
    } else if d == 3 {
        proof {
            reveal_strlit("3");
        }
        out.append("3");
        assert(old(out)@ + "3"@ =~= old(out)@.push('3'));
    } else if d == 4 {
        proof {
            reveal_strlit("4");
        }
        out.append("4");
        assert(old(out)@ + "4"@ =~= old(out)@.push('4'));
    } else if d == 5 {
        proof {
            reveal_strlit("5");
        }
        out.append("5");
        assert(old(out)@ + "5"@ =~= old(out)@.push('5'));
    } else if d == 6 {
        proof {
            reveal_strlit("6");
        }
        out.append("6");
        assert(old(out)@ + "6"@ =~= old(out)@.push('6'));
    } else if d == 7 {
        proof {
            reveal_strlit("7");
        }
        out.append("7");
        assert(old(out)@ + "7"@ =~= old(out)@.push('7'));
    } else if d == 8 {
        proof {
            reveal_strlit("8");
        }
        out.append("8");
        assert(old(out)@ + "8"@ =~= old(out)@.push('8'));
    } else {
        proof {
            reveal_strlit("9");
        }
        out.append("9");
        assert(old(out)@ + "9"@ =~= old(out)@.push('9'));
    }
}

/// Appends the decimal numeral of `n` to `out`.
pub fn push_u64_decimal(out: &mut String, n: u64)
    ensures
        final (out)@ == old(out)@ + dec_str(n as int),
    decreases n,
{
    if n <= 9 {
        push_digit(out, n as u8);
        assert(old(out)@.push(dec_digit(n as int)) =~= old(out)@ + dec_str(n as int));
    } else {
        push_u64_decimal(out, n / 10);
        push_digit(out, (n % 10) as u8);
        assert((old(out)@ + dec_str(n as int / 10)).push(dec_digit(n as int % 10)) =~= old(out)@
            + dec_str(n as int));
    }
}

/// Appends the numeral of `n`, zero-padded to two digits.
pub fn push_2digit(out: &mut String, n: u8)
    requires
        n <= 99,
    ensures
        final (out)@ == old(out)@ + dec_str_pad2(n as int),
{
    if n <= 9 {
        push_digit(out, 0);
        push_digit(out, n);
        assert(old(out)@.push('0').push(dec_digit(n as int)) =~= old(out)@ + dec_str_pad2(
            n as int,
        ));
    } else {
        push_u64_decimal(out, n as u64);
    }
}

/// The decimal numeral of `n` as a string.
pub fn u64_to_string(n: u64) -> (s: String)
    ensures
        s@ == dec_str(n as int),
{
    let mut out = String::new();
    push_u64_decimal(&mut out, n);
    proof {
        assert(Seq::<char>::empty() + dec_str(n as int) =~= dec_str(n as int));
    }
    out
}

pub open spec fn is_path_sep(c: char) -> bool {
    c == '/' || c == '\u{5c}'
}

/// Where a path's final segment starts: right after the last separator,
/// or 0 when there is none.
pub open spec fn cut_pos(s: Seq<char>) -> int
    decreases s.len(),
{
    if s.len() == 0 {
        0
    } else if is_path_sep(s.last()) {
        s.len() as int
    } else {
        cut_pos(s.drop_last())
    }
}

pub proof fn lemma_cut_pos_range(s: Seq<char>)
    ensures
        0 <= cut_pos(s) <= s.len(),
    decreases s.len(),
{
    if s.len() > 0 && !is_path_sep(s.last()) {
        lemma_cut_pos_range(s.drop_last());
    }
}

/// The path's final segment: the characters after the last `/` or `\`
/// (empty for a path that ends in a separator).
pub open spec fn spec_base_name(s: Seq<char>) -> Seq<char> {
    s.skip(cut_pos(s))
}

pub fn base_name(s: &str) -> (t: String)
    ensures
        t@ == spec_base_name(s@),
{
    let n = s.unicode_len();
    proof {
        assert(s@.take(n as int) =~= s@);
    }
    let mut i: usize = n;
    loop
        invariant
            0 <= i <= n,
            n == s@.len(),
            cut_pos(s@) == cut_pos(s@.take(i as int)),
        ensures
            0 <= i <= n,
            cut_pos(s@) == i as int,
        decreases i,
    {
        if i == 0 {
            proof {
                assert(s@.take(0) =~= Seq::<char>::empty());
            }
            break ;
        }
        let c = s.get_char(i - 1);
        proof {
            assert(s@.take(i as int).drop_last() =~= s@.take(i as int - 1));
            assert(s@.take(i as int).last() == s@[i as int - 1]);
        }
        if c == '/' || c as u32 == 0x5c {
            proof {
                assert(cut_pos(s@.take(i as int)) == i as int);
            }
            break ;
        }
        i = i - 1;
    }
    s.substring_char(i, n).to_owned()
}

pub proof fn lemma_dec_str_all_digits(n: int)
    requires
        n >= 0,
    ensures
        all_digits(dec_str(n)),
        dec_str(n).len() >= 1,
    decreases n,
{
    if n <= 9 {
        assert(is_digit(dec_digit(n)));
        assert(dec_str(n) == seq![dec_digit(n)]);
    } else {
        lemma_dec_str_all_digits(n / 10);
        assert(is_digit(dec_digit(n % 10)));
        assert(dec_str(n) == dec_str(n / 10).push(dec_digit(n % 10)));
        assert forall|i: int| 0 <= i < dec_str(n).len() implies is_digit(
            #[trigger] dec_str(n)[i],
        ) by {
            if i < dec_str(n / 10).len() {
                assert(dec_str(n)[i] == dec_str(n / 10)[i]);
            }
        }
    }
}

/// Reading a numeral back gives the value it was made from.
pub proof fn lemma_digits_val_dec_str(n: int)
    requires
        n >= 0,
    ensures
        digits_val(dec_str(n)) == n,
    decreases n,
{
    if n <= 9 {
        assert(seq![dec_digit(n)].drop_last() =~= Seq::<char>::empty());
        assert(digits_val(dec_str(n)) == digits_val(Seq::<char>::empty()) * 10 + digit_val(
            dec_digit(n),
        ));
    } else {
        lemma_digits_val_dec_str(n / 10);
        assert(dec_str(n).drop_last() =~= dec_str(n / 10));
    }
}

/// The decimal numeral of a signed value: a minus sign for negatives.
pub open spec fn dec_str_signed(n: int) -> Seq<char> {
    if n < 0 {
        seq!['-'] + dec_str(-n)
    } else {
        dec_str(n)
    }
}

/// The decimal numeral of `i` as a string.
pub fn i64_to_string(i: i64) -> (s: String)
    ensures
        s@ == dec_str_signed(i as int),
{
    if i >= 0 {
        u64_to_string(i as u64)
    } else {
        let mut out = String::new();
        proof {
            reveal_strlit("-");
        }
        out.append("-");
        let wide: i128 = i as i128;
        let mag: u64 = (-wide) as u64;
        push_u64_decimal(&mut out, mag);
        proof {
            assert("-"@ =~= seq!['-']);
            assert(Seq::<char>::empty() + "-"@ + dec_str(mag as int) =~= dec_str_signed(i as int));
        }
        out
    }
}

} // verus!
