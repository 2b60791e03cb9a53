//! Calendar dates in the fixed textual pattern `Mon DD, YYYY`
//! (for example `Jan 02, 2024`): strict parsing, formatting back to the
//! same text, and total ordering.

use vstd::arithmetic::div_mod::{lemma_fundamental_div_mod, lemma_fundamental_div_mod_converse};
use vstd::prelude::*;
use vstd::string::StrSliceExecFns;

use crate::text::push_char;

verus! {

/// A calendar date in the proleptic Gregorian calendar.
#[derive(Clone, Copy, PartialEq, Eq, PartialOrd, Ord, Hash, Debug, Structural)]
pub struct MyDate {
    pub year: u16,
    pub month: u8,
    pub day: u8,
}

/// Text that was rejected because it does not match the date pattern.
#[derive(Debug, Clone, PartialEq, Eq)]
pub struct DateFormatError {
    pub text: String,
}

/// Gregorian leap-year rule.
pub open spec fn is_leap_year(y: int) -> bool {
    y % 4 == 0 && (y % 100 != 0 || y % 400 == 0)
}

/// Number of days in month `m` of year `y`.
pub open spec fn days_in_month(y: int, m: int) -> int {
    if m == 2 {
        if is_leap_year(y) {
            29
        } else {
            28
        }
    } else if m == 4 || m == 6 || m == 9 || m == 11 {
        30
    } else {
        31
    }
}

impl MyDate {
    /// A real calendar date whose year fits the four-digit pattern.
    pub open spec fn valid(self) -> bool {
        &&& self.year <= 9999
        &&& 1 <= self.month <= 12
        &&& 1 <= self.day <= days_in_month(self.year as int, self.month as int)
    }
}

/// Strict chronological order on dates.
pub open spec fn date_lt(a: MyDate, b: MyDate) -> bool {
    ||| a.year < b.year
    ||| (a.year == b.year && a.month < b.month)
    ||| (a.year == b.year && a.month == b.month && a.day < b.day)
}

/// Chronological order on dates, allowing equality.
pub open spec fn date_le(a: MyDate, b: MyDate) -> bool {
    date_lt(a, b) || a == b
}

/// The three-letter English abbreviation of month `m`.
pub open spec fn month_abbrev(m: int) -> Seq<char> {
    if m == 1 {
        seq!['J', 'a', 'n']
    } else if m == 2 {
        seq!['F', 'e', 'b']
    } else if m == 3 {
        seq!['M', 'a', 'r']
    } else if m == 4 {
        seq!['A', 'p', 'r']
    } else if m == 5 {
        seq!['M', 'a', 'y']
    } else if m == 6 {
        seq!['J', 'u', 'n']
    } else if m == 7 {
        seq!['J', 'u', 'l']
    } else if m == 8 {
        seq!['A', 'u', 'g']
    } else if m == 9 {
        seq!['S', 'e', 'p']
    } else if m == 10 {
        seq!['O', 'c', 't']
    } else if m == 11 {
        seq!['N', 'o', 'v']
    } else {
        seq!['D', 'e', 'c']
    }
}

/// The month whose abbreviation is `c0 c1 c2`, or `0` if there is none.
pub open spec fn month_from_chars(c0: char, c1: char, c2: char) -> int {
    if c0 == 'J' && c1 == 'a' && c2 == 'n' {
        1
    } else if c0 == 'F' && c1 == 'e' && c2 == 'b' {
        2
    } else if c0 == 'M' && c1 == 'a' && c2 == 'r' {
        3
    } else if c0 == 'A' && c1 == 'p' && c2 == 'r' {
        4
    } else if c0 == 'M' && c1 == 'a' && c2 == 'y' {
        5
    } else if c0 == 'J' && c1 == 'u' && c2 == 'n' {
        6
    } else if c0 == 'J' && c1 == 'u' && c2 == 'l' {
        7
    } else if c0 == 'A' && c1 == 'u' && c2 == 'g' {
        8
    } else if c0 == 'S' && c1 == 'e' && c2 == 'p' {
        9
    } else if c0 == 'O' && c1 == 'c' && c2 == 't' {
        10
    } else if c0 == 'N' && c1 == 'o' && c2 == 'v' {
        11
    } else if c0 == 'D' && c1 == 'e' && c2 == 'c' {
        12
    } else {
        0
    }
}

/// The decimal digit character for `d` in `0..=9`.
pub open spec fn digit_char(d: int) -> char {
    if d == 0 {
        '0'
    } else if d == 1 {
        '1'
    } else if d == 2 {
        '2'
    } else if d == 3 {
        '3'
    } else if d == 4 {
        '4'
    } else if d == 5 {
        '5'
    } else if d == 6 {
        '6'
    } else if d == 7 {
        '7'
    } else if d == 8 {
        '8'
    } else {
        '9'
    }
}

/// The value of a decimal digit character, or `10` for any other character.
pub open spec fn digit_val(c: char) -> int {
    if c == '0' {
        0
    } else if c == '1' {
        1
    } else if c == '2' {
        2
    } else if c == '3' {
        3
    } else if c == '4' {
        4
    } else if c == '5' {
        5
    } else if c == '6' {
        6
    } else if c == '7' {
        7
    } else if c == '8' {
        8
    } else if c == '9' {
        9
    } else {
        10
    }
}

/// `n` in `0..=99` written as exactly two digits.
pub open spec fn two_digits(n: int) -> Seq<char> {
    seq![digit_char(n / 10), digit_char(n % 10)]
}

/// `n` in `0..=9999` written as exactly four digits.
pub open spec fn four_digits(n: int) -> Seq<char> {
    seq![
        digit_char(n / 1000),
        digit_char((n / 100) % 10),
        digit_char((n / 10) % 10),
        digit_char(n % 10),
    ]
}

/// The canonical text of a date: `Mon DD, YYYY`.
pub open spec fn format_date(d: MyDate) -> Seq<char> {
    month_abbrev(d.month as int) + seq![' '] + two_digits(d.day as int) + seq![',', ' ']
        + four_digits(d.year as int)
}

/// The unique valid date whose canonical text is `s`, if there is one.
pub open spec fn parse_date(s: Seq<char>) -> Option<MyDate> {
    if exists|d: MyDate| d.valid() && format_date(d) == s {
        Some(choose|d: MyDate| d.valid() && format_date(d) == s)
    } else {
        None
    }
}

/// The quotient and remainder digits of a number below 10000 are digits.
proof fn lemma_digit_bounds(n: int)
    requires
        0 <= n <= 9999,
    ensures
        0 <= n / 1000 <= 9,
        0 <= (n / 100) % 10 <= 9,
        0 <= (n / 10) % 10 <= 9,
        0 <= n % 10 <= 9,
        0 <= n / 10,
{
    lemma_fundamental_div_mod(n, 1000);
    lemma_fundamental_div_mod(n, 100);
    lemma_fundamental_div_mod(n, 10);
    assert(0 <= n / 1000 <= 9) by (nonlinear_arith)
        requires
            0 <= n <= 9999,
    ;
    assert(0 <= n / 10) by (nonlinear_arith)
        requires
            0 <= n,
    ;
    assert(0 <= (n / 100) % 10 <= 9);
    assert(0 <= (n / 10) % 10 <= 9);
    assert(0 <= n % 10 <= 9);
}

/// Recomposing four digits and taking them apart again are inverse.
proof fn lemma_four_digits_recompose(a: int, b: int, c: int, e: int)
    requires
        0 <= a <= 9,
        0 <= b <= 9,
        0 <= c <= 9,
        0 <= e <= 9,
    ensures
        (1000 * a + 100 * b + 10 * c + e) / 1000 == a,
        ((1000 * a + 100 * b + 10 * c + e) / 100) % 10 == b,
        ((1000 * a + 100 * b + 10 * c + e) / 10) % 10 == c,
        (1000 * a + 100 * b + 10 * c + e) % 10 == e,
{
    let n = 1000 * a + 100 * b + 10 * c + e;
    lemma_fundamental_div_mod_converse(n, 1000, a, 100 * b + 10 * c + e);
    lemma_fundamental_div_mod_converse(n, 100, 10 * a + b, 10 * c + e);
    lemma_fundamental_div_mod_converse(n, 10, 100 * a + 10 * b + c, e);
    lemma_fundamental_div_mod_converse(n / 100, 10, a, b);
    lemma_fundamental_div_mod_converse(n / 10, 10, 10 * a + b, c);
}

/// Recomposing two digits and taking them apart again are inverse.
proof fn lemma_two_digits_recompose(p: int, q: int)
    requires
        0 <= p <= 9,
        0 <= q <= 9,
    ensures
        (10 * p + q) / 10 == p,
        (10 * p + q) % 10 == q,
{
    lemma_fundamental_div_mod_converse(10 * p + q, 10, p, q);
}

/// An abbreviation produced by [`month_abbrev`] decodes back to its month.
proof fn lemma_month_abbrev_decodes(m: int)
    requires
        1 <= m <= 12,
    ensures
        month_abbrev(m).len() == 3,
        month_from_chars(month_abbrev(m)[0], month_abbrev(m)[1], month_abbrev(m)[2]) == m,
{
}

/// Characters that decode to a month are that month's abbreviation.
proof fn lemma_month_chars_encode(c0: char, c1: char, c2: char)
    requires
        month_from_chars(c0, c1, c2) != 0,
    ensures
        month_abbrev(month_from_chars(c0, c1, c2)) =~= seq![c0, c1, c2],
{
}

/// Shape of the canonical date text: length, separators, and how each
/// character position relates to the date's fields.
proof fn lemma_format_shape(d: MyDate)
    requires
        d.valid(),
    ensures
        format_date(d).len() == 12,
        month_from_chars(format_date(d)[0], format_date(d)[1], format_date(d)[2])
            == d.month as int,
        format_date(d)[3] == ' ',
        format_date(d)[6] == ',',
        format_date(d)[7] == ' ',
        digit_val(format_date(d)[4]) == d.day as int / 10,
        digit_val(format_date(d)[5]) == d.day as int % 10,
        digit_val(format_date(d)[8]) == d.year as int / 1000,
        digit_val(format_date(d)[9]) == (d.year as int / 100) % 10,
        digit_val(format_date(d)[10]) == (d.year as int / 10) % 10,
        digit_val(format_date(d)[11]) == d.year as int % 10,
{
    lemma_month_abbrev_decodes(d.month as int);
    lemma_digit_bounds(d.year as int);
    lemma_digit_bounds(d.day as int);
    let f = format_date(d);
    assert(f[0] == month_abbrev(d.month as int)[0]);
    assert(f[1] == month_abbrev(d.month as int)[1]);
    assert(f[2] == month_abbrev(d.month as int)[2]);
    assert(f[4] == digit_char(d.day as int / 10));
    assert(f[5] == digit_char(d.day as int % 10));
    assert(f[8] == digit_char(d.year as int / 1000));
    assert(f[9] == digit_char((d.year as int / 100) % 10));
    assert(f[10] == digit_char((d.year as int / 10) % 10));
    assert(f[11] == digit_char(d.year as int % 10));
}

/// No two distinct valid dates share their canonical text.
pub proof fn lemma_format_injective(d1: MyDate, d2: MyDate)
    requires
        d1.valid(),
        d2.valid(),
        format_date(d1) == format_date(d2),
    ensures
        d1 == d2,
{
    lemma_format_shape(d1);
    lemma_format_shape(d2);
    lemma_fundamental_div_mod(d1.day as int, 10);
    lemma_fundamental_div_mod(d2.day as int, 10);
    assert(d1.day == d2.day);
    assert(d1.year as int / 1000 == d2.year as int / 1000);
    lemma_digit_bounds(d1.year as int);
    lemma_digit_bounds(d2.year as int);
    lemma_four_digits_recompose(
        d1.year as int / 1000,
        (d1.year as int / 100) % 10,
        (d1.year as int / 10) % 10,
        d1.year as int % 10,
    );
    lemma_four_digits_recompose(
        d2.year as int / 1000,
        (d2.year as int / 100) % 10,
        (d2.year as int / 10) % 10,
        d2.year as int % 10,
    );
    lemma_fundamental_div_mod(d1.year as int, 1000);
    lemma_fundamental_div_mod(d1.year as int % 1000, 100);
    lemma_fundamental_div_mod(d2.year as int, 1000);
    assert(d1.year as int == 1000 * (d1.year as int / 1000) + 100 * ((d1.year as int / 100) % 10)
        + 10 * ((d1.year as int / 10) % 10) + d1.year as int % 10) by {
        lemma_year_decompose(d1.year as int);
    }
    assert(d2.year as int == 1000 * (d2.year as int / 1000) + 100 * ((d2.year as int / 100) % 10)
        + 10 * ((d2.year as int / 10) % 10) + d2.year as int % 10) by {
        lemma_year_decompose(d2.year as int);
    }
    assert(d1.year == d2.year);
}

/// A number below 10000 is the weighted sum of its four digits.
proof fn lemma_year_decompose(n: int)
    requires
        0 <= n <= 9999,
    ensures
        n == 1000 * (n / 1000) + 100 * ((n / 100) % 10) + 10 * ((n / 10) % 10) + n % 10,
{
    lemma_digit_bounds(n);
    let a = n / 1000;
    let b = (n / 100) % 10;
    let c = (n / 10) % 10;
    let e = n % 10;
    let m = 1000 * a + 100 * b + 10 * c + e;
    lemma_four_digits_recompose(a, b, c, e);
    // both n and m have the same digits, hence the same remainders at
    // every scale; conclude by the fundamental division equations
    lemma_fundamental_div_mod(n, 1000);
    lemma_fundamental_div_mod(n, 100);
    lemma_fundamental_div_mod(n, 10);
    lemma_fundamental_div_mod(m, 1000);
    lemma_fundamental_div_mod(m, 100);
    lemma_fundamental_div_mod(m, 10);
    assert(n == m) by (nonlinear_arith)
        requires
            0 <= n <= 9999,
            0 <= m <= 9999,
            n / 1000 == m / 1000,
            (n / 100) % 10 == (m / 100) % 10,
            (n / 10) % 10 == (m / 10) % 10,
            n % 10 == m % 10,
    ;
}

/// Law: formatting and parsing are mutually inverse. A valid date parses
/// back from its text, and any text that parses is the canonical text of
/// the parsed date.
pub proof fn lemma_date_round_trip(d: MyDate, s: Seq<char>)
    ensures
        d.valid() ==> parse_date(format_date(d)) == Some(d),
        parse_date(s) matches Some(d2) ==> d2.valid() && format_date(d2) == s,
{
    if d.valid() {
        assert(exists|x: MyDate| x.valid() && format_date(x) == format_date(d));
        let x = choose|x: MyDate| x.valid() && format_date(x) == format_date(d);
        lemma_format_injective(x, d);
    }
    if parse_date(s) is Some {
        let d2 = choose|x: MyDate| x.valid() && format_date(x) == s;
        assert(parse_date(s) == Some(d2));
    }
}

/// Executable value of a decimal digit character (`10` for any other).
fn digit_value(c: char) -> (r: u8)
    ensures
        r as int == digit_val(c),
{
    match c {
        '0' => 0,
        '1' => 1,
        '2' => 2,
        '3' => 3,
        '4' => 4,
        '5' => 5,
        '6' => 6,
        '7' => 7,
        '8' => 8,
        '9' => 9,
        _ => 10,
    }
}

/// Executable digit character for `d` in `0..=9`.
fn digit_chr(d: u8) -> (r: char)
    requires
        d <= 9,
    ensures
        r == digit_char(d as int),
{
    match d {
        0 => '0',
        1 => '1',
        2 => '2',
        3 => '3',
        4 => '4',
        5 => '5',
        6 => '6',
        7 => '7',
        8 => '8',
        _ => '9',
    }
}

/// Executable month decoding; `0` when the letters fit no month.
fn month_code(c0: char, c1: char, c2: char) -> (r: u8)
    ensures
        r as int == month_from_chars(c0, c1, c2),
{
    if c0 == 'J' && c1 == 'a' && c2 == 'n' {
        1
    } else if c0 == 'F' && c1 == 'e' && c2 == 'b' {
        2
    } else if c0 == 'M' && c1 == 'a' && c2 == 'r' {
        3
    } else if c0 == 'A' && c1 == 'p' && c2 == 'r' {
        4
    } else if c0 == 'M' && c1 == 'a' && c2 == 'y' {
        5
    } else if c0 == 'J' && c1 == 'u' && c2 == 'n' {
        6
    } else if c0 == 'J' && c1 == 'u' && c2 == 'l' {
        7
    } else if c0 == 'A' && c1 == 'u' && c2 == 'g' {
        8
    } else if c0 == 'S' && c1 == 'e' && c2 == 'p' {
        9
    } else if c0 == 'O' && c1 == 'c' && c2 == 't' {
        10
    } else if c0 == 'N' && c1 == 'o' && c2 == 'v' {
        11
    } else if c0 == 'D' && c1 == 'e' && c2 == 'c' {
        12
    } else {
        0
    }
}

/// Executable month abbreviation.
fn month_str(m: u8) -> (r: &'static str)
    requires
        1 <= m <= 12,
    ensures
        r@ == month_abbrev(m as int),
{
    match m {
        1 => {
            let t = "Jan";
            proof {
                reveal_strlit("Jan");
                assert(t@ =~= month_abbrev(1));
            }
            t
        },
        2 => {
            let t = "Feb";
            proof {
                reveal_strlit("Feb");
                assert(t@ =~= month_abbrev(2));
            }
            t
        },
        3 => {
            let t = "Mar";
            proof {
                reveal_strlit("Mar");
                assert(t@ =~= month_abbrev(3));
            }
            t
        },
        4 => {
            let t = "Apr";
            proof {
                reveal_strlit("Apr");
                assert(t@ =~= month_abbrev(4));
            }
            t
        },
        5 => {
            let t = "May";
            proof {
                reveal_strlit("May");
                assert(t@ =~= month_abbrev(5));
            }
            t
        },
        6 => {
            let t = "Jun";
            proof {
                reveal_strlit("Jun");
                assert(t@ =~= month_abbrev(6));
            }
            t
        },
        7 => {
            let t = "Jul";
            proof {
                reveal_strlit("Jul");
                assert(t@ =~= month_abbrev(7));
            }
            t
        },
        8 => {
            let t = "Aug";
            proof {
                reveal_strlit("Aug");
                assert(t@ =~= month_abbrev(8));
            }
            t
        },
        9 => {
            let t = "Sep";
            proof {
                reveal_strlit("Sep");
                assert(t@ =~= month_abbrev(9));
            }
            t
        },
        10 => {
            let t = "Oct";
            proof {
                reveal_strlit("Oct");
                assert(t@ =~= month_abbrev(10));
            }
            t
        },
        11 => {
            let t = "Nov";
            proof {
                reveal_strlit("Nov");
                assert(t@ =~= month_abbrev(11));
            }
            t
        },
        _ => {
            let t = "Dec";
            proof {
                reveal_strlit("Dec");
                assert(t@ =~= month_abbrev(12));
            }
            t
        },
    }
}

/// Executable number of days in a month.
fn days_in_month_x(y: u16, m: u8) -> (r: u8)
    requires
        1 <= m <= 12,
    ensures
        r as int == days_in_month(y as int, m as int),
{
    if m == 2 {
        if y % 4 == 0 && (y % 100 != 0 || y % 400 == 0) {
            29
        } else {
            28
        }
    } else if m == 4 || m == 6 || m == 9 || m == 11 {
        30
    } else {
        31
    }
}

impl MyDate {
    /// Strict parse of the pattern `Mon DD, YYYY`. Returns the parsed
    /// date exactly when the text is the canonical rendering of a valid
    /// date; every other text is rejected.
    pub fn from_str(s: &str) -> (r: Result<MyDate, DateFormatError>)
        ensures
            match r {
                Ok(d) => d.valid() && parse_date(s@) == Some(d),
                Err(e) => parse_date(s@) is None && e.text@ == s@,
            },
    {
        proof {
            lemma_parse_shape(s@);
        }
        let n = s.unicode_len();
        if n != 12 {
            return Err(DateFormatError { text: s.to_owned() });
        }
        let m = month_code(s.get_char(0), s.get_char(1), s.get_char(2));
        if m == 0 {
            return Err(DateFormatError { text: s.to_owned() });
        }
        if s.get_char(3) != ' ' || s.get_char(6) != ',' || s.get_char(7) != ' ' {
            return Err(DateFormatError { text: s.to_owned() });
        }
        let d1 = digit_value(s.get_char(4));
        let d2 = digit_value(s.get_char(5));
        let y1 = digit_value(s.get_char(8));
        let y2 = digit_value(s.get_char(9));
        let y3 = digit_value(s.get_char(10));
        let y4 = digit_value(s.get_char(11));
        if d1 > 9 || d2 > 9 || y1 > 9 || y2 > 9 || y3 > 9 || y4 > 9 {
            return Err(DateFormatError { text: s.to_owned() });
        }
        let day: u8 = 10 * d1 + d2;
        let year: u16 = 1000 * (y1 as u16) + 100 * (y2 as u16) + 10 * (y3 as u16) + (y4 as u16);
        proof {
            lemma_two_digits_recompose(d1 as int, d2 as int);
            lemma_four_digits_recompose(y1 as int, y2 as int, y3 as int, y4 as int);
        }
        if day == 0 || day > days_in_month_x(year, m) {
            return Err(DateFormatError { text: s.to_owned() });
        }
        let d = MyDate { year, month: m, day };
        proof {
            lemma_month_chars_encode(s@[0], s@[1], s@[2]);
            lemma_digit_inverse(s@[4]);
            lemma_digit_inverse(s@[5]);
            lemma_digit_inverse(s@[8]);
            lemma_digit_inverse(s@[9]);
            lemma_digit_inverse(s@[10]);
            lemma_digit_inverse(s@[11]);
            assert(format_date(d) =~= s@);
            assert(exists|x: MyDate| x.valid() && format_date(x) == s@);
            let x = choose|x: MyDate| x.valid() && format_date(x) == s@;
            lemma_format_injective(x, d);
        }
        Ok(d)
    }

    /// The canonical text `Mon DD, YYYY` of a valid date.
    pub fn to_string(&self) -> (r: String)
        requires
            self.valid(),
        ensures
            r@ == format_date(*self),
    {
        proof {
            lemma_digit_bounds(self.year as int);
            lemma_digit_bounds(self.day as int);
        }
        let mut r = String::new();
        r.append(month_str(self.month));
        push_char(&mut r, ' ');
        push_char(&mut r, digit_chr(self.day / 10));
        push_char(&mut r, digit_chr(self.day % 10));
        push_char(&mut r, ',');
        push_char(&mut r, ' ');
        push_char(&mut r, digit_chr((self.year / 1000) as u8));
        push_char(&mut r, digit_chr(((self.year / 100) % 10) as u8));
        push_char(&mut r, digit_chr(((self.year / 10) % 10) as u8));
        push_char(&mut r, digit_chr((self.year % 10) as u8));
        proof {
            assert(r@ =~= format_date(*self));
        }
        r
    }

    /// Executable test for [`MyDate::valid`]: a real calendar date
    /// whose year fits the four-digit pattern.
    pub fn is_valid(&self) -> (r: bool)
        ensures
            r == self.valid(),
    {
        self.year <= 9999 && 1 <= self.month && self.month <= 12 && 1 <= self.day && self.day
            <= days_in_month_x(self.year, self.month)
    }

    /// Executable strict chronological comparison.
    pub fn lt(&self, other: &MyDate) -> (r: bool)
        ensures
            r == date_lt(*self, *other),
    {
        self.year < other.year || (self.year == other.year && self.month < other.month) || (
        self.year == other.year && self.month == other.month && self.day < other.day)
    }
}

/// A digit character survives the round trip through its value.
proof fn lemma_digit_inverse(c: char)
    requires
        digit_val(c) <= 9,
    ensures
        digit_char(digit_val(c)) == c,
{
}

/// Everything a successful parse says about the characters of the text:
/// used to rule a parse out when a character fails its check.
proof fn lemma_parse_shape(s: Seq<char>)
    ensures
        parse_date(s) matches Some(d) ==> {
            &&& s.len() == 12
            &&& d.valid()
            &&& format_date(d) == s
            &&& month_from_chars(s[0], s[1], s[2]) == d.month as int
            &&& s[3] == ' '
            &&& s[6] == ','
            &&& s[7] == ' '
            &&& digit_val(s[4]) <= 9
            &&& digit_val(s[5]) <= 9
            &&& digit_val(s[8]) <= 9
            &&& digit_val(s[9]) <= 9
            &&& digit_val(s[10]) <= 9
            &&& digit_val(s[11]) <= 9
            &&& d.day as int == 10 * digit_val(s[4]) + digit_val(s[5])
            &&& d.year as int == 1000 * digit_val(s[8]) + 100 * digit_val(s[9]) + 10 * digit_val(
                s[10],
            ) + digit_val(s[11])
        },
{
    if parse_date(s) is Some {
        let d = choose|d: MyDate| d.valid() && format_date(d) == s;
        lemma_format_shape(d);
        lemma_digit_bounds(d.day as int);
        lemma_digit_bounds(d.year as int);
        lemma_fundamental_div_mod(d.day as int, 10);
        lemma_year_decompose(d.year as int);
    }
}

} // verus!
