//! Dates in the fixed form `YYYY-MM-DD`: parsing and order.

use crate::error::{error, Error};
use crate::text::{digit_char, strip_prefix};
use core::cmp::Ordering;
use vstd::arithmetic::div_mod::lemma_fundamental_div_mod_converse;
use vstd::prelude::*;

verus! {

/// A date. Only the range of each field is checked: the year is at least 1,
/// the month lies in 1..=12 and the day in 1..=31, whatever the month.
#[derive(Clone, Copy, Debug, PartialEq, Eq, Structural)]
pub struct Date {
    pub year: u16,
    pub month: u8,
    pub day: u8,
}

/// Whether `c` is one of `0` to `9`.
pub open spec fn is_digit(c: char) -> bool {
    '0' <= c <= '9'
}

/// The value of the digit `c`.
pub open spec fn digit_value(c: char) -> int {
    c as u32 - '0' as u32
}

/// Whether `t` has the shape `DDDD-DD-DD`, each `D` a digit.
pub open spec fn is_date_shaped(t: Seq<char>) -> bool {
    &&& t.len() == 10
    &&& is_digit(t[0])
    &&& is_digit(t[1])
    &&& is_digit(t[2])
    &&& is_digit(t[3])
    &&& t[4] == '-'
    &&& is_digit(t[5])
    &&& is_digit(t[6])
    &&& t[7] == '-'
    &&& is_digit(t[8])
    &&& is_digit(t[9])
}

/// The number written by the first four characters of `t`.
pub open spec fn token_year(t: Seq<char>) -> int {
    1000 * digit_value(t[0]) + 100 * digit_value(t[1]) + 10 * digit_value(t[2]) + digit_value(
        t[3],
    )
}

/// The number written by the characters 5 and 6 of `t`.
pub open spec fn token_month(t: Seq<char>) -> int {
    10 * digit_value(t[5]) + digit_value(t[6])
}

/// The number written by the characters 8 and 9 of `t`.
pub open spec fn token_day(t: Seq<char>) -> int {
    10 * digit_value(t[8]) + digit_value(t[9])
}

/// Whether `t` is a date token: of the shape `DDDD-DD-DD`, with a year of
/// at least 1, a month in 1..=12 and a day in 1..=31.
pub open spec fn is_date_token(t: Seq<char>) -> bool {
    &&& is_date_shaped(t)
    &&& token_year(t) >= 1
    &&& 1 <= token_month(t) <= 12
    &&& 1 <= token_day(t) <= 31
}

/// The date that the date token `t` writes.
pub open spec fn token_date(t: Seq<char>) -> Date {
    Date { year: token_year(t) as u16, month: token_month(t) as u8, day: token_day(t) as u8 }
}

/// The message for a token that is no date.
pub open spec fn date_error_text(raw: Seq<char>) -> Seq<char> {
    "could not parse date '"@ + raw + "'"@
}

fn digit_at(s: &str, i: usize) -> (r: Option<u16>)
    requires
        i < s@.len(),
    ensures
        match r {
            Some(v) => is_digit(s@[i as int]) && v == digit_value(s@[i as int]),
            None => !is_digit(s@[i as int]),
        },
{
    let u: u32 = s.get_char(i) as u32;
    if 48 <= u && u <= 57 {
        Some((u - 48) as u16)
    } else {
        None
    }
}

fn date_error(raw: &str) -> (e: Error)
    ensures
        e@ == date_error_text(raw@),
{
    let mut text = String::from_str("could not parse date '");
    text.append(raw);
    text.append("'");
    assert(text@ =~= date_error_text(raw@));
    error(text)
}

fn date_fields(t: &str) -> (r: Option<Date>)
    ensures
        match r {
            Some(d) => is_date_token(t@) && d == token_date(t@),
            None => !is_date_token(t@),
        },
{
    if t.unicode_len() != 10 {
        return None;
    }
    if t.get_char(4) != '-' || t.get_char(7) != '-' {
        return None;
    }
    let y0 = digit_at(t, 0)?;
    let y1 = digit_at(t, 1)?;
    let y2 = digit_at(t, 2)?;
    let y3 = digit_at(t, 3)?;
    let m0 = digit_at(t, 5)?;
    let m1 = digit_at(t, 6)?;
    let d0 = digit_at(t, 8)?;
    let d1 = digit_at(t, 9)?;
    let year: u16 = 1000 * y0 + 100 * y1 + 10 * y2 + y3;
    let month: u16 = 10 * m0 + m1;
    let day: u16 = 10 * d0 + d1;
    if year >= 1 && 1 <= month && month <= 12 && 1 <= day && day <= 31 {
        Some(Date { year, month: month as u8, day: day as u8 })
    } else {
        None
    }
}

/// Parses a date token. It succeeds exactly on the date tokens, with the
/// date that the token writes; any other token is an error whose message
/// quotes it.
pub fn try_parse_date(date: &str) -> (r: Result<Date, Error>)
    ensures
        match r {
            Ok(d) => is_date_token(date@) && d == token_date(date@) && d.is_valid(),
            Err(e) => !is_date_token(date@) && e@ == date_error_text(date@),
        },
{
    match date_fields(date) {
        Some(d) => Ok(d),
        None => Err(date_error(date)),
    }
}

/// Parses the date token that follows `prefix` in `line`. A line that does
/// not begin with `prefix` holds no date; one that does must go on with a
/// date token and nothing else.
pub fn try_parse_date_with_prefix(line: &str, prefix: &str) -> (r: Result<Option<Date>, Error>)
    ensures
        match r {
            Ok(None) => !prefix@.is_prefix_of(line@),
            Ok(Some(d)) => {
                &&& prefix@.is_prefix_of(line@)
                &&& is_date_token(line@.skip(prefix@.len() as int))
                &&& d == token_date(line@.skip(prefix@.len() as int))
                &&& d.is_valid()
            },
            Err(e) => {
                &&& prefix@.is_prefix_of(line@)
                &&& !is_date_token(line@.skip(prefix@.len() as int))
                &&& e@ == date_error_text(line@.skip(prefix@.len() as int))
            },
        },
{
    if let Some(date) = strip_prefix(line, prefix) {
        match try_parse_date(date) {
            Ok(d) => Ok(Some(d)),
            Err(e) => Err(e),
        }
    } else {
        Ok(None)
    }
}

/// The token that writes the date of year `year`, month `month` and day
/// `day`: four digits, a hyphen, two digits, a hyphen, two digits.
pub open spec fn date_token(year: nat, month: nat, day: nat) -> Seq<char> {
    seq![
        digit_char(year / 1000 % 10),
        digit_char(year / 100 % 10),
        digit_char(year / 10 % 10),
        digit_char(year % 10),
        '-',
        digit_char(month / 10 % 10),
        digit_char(month % 10),
        '-',
        digit_char(day / 10 % 10),
        digit_char(day % 10),
    ]
}

/// Writing a date and reading it back gives the same date: the token of a
/// year in 1..=9999, a month in 1..=12 and a day in 1..=31 is a date token,
/// and it writes exactly these three numbers.
pub proof fn lemma_token_round_trip(year: nat, month: nat, day: nat)
    requires
        1 <= year <= 9999,
        1 <= month <= 12,
        1 <= day <= 31,
    ensures
        is_date_token(date_token(year, month, day)),
        token_year(date_token(year, month, day)) == year,
        token_month(date_token(year, month, day)) == month,
        token_day(date_token(year, month, day)) == day,
        token_date(date_token(year, month, day)) == (Date {
            year: year as u16,
            month: month as u8,
            day: day as u8,
        }),
{
    let t = date_token(year, month, day);
    lemma_date_token_chars(year, month, day);
    lemma_digit_char(year / 1000 % 10);
    lemma_digit_char(year / 100 % 10);
    lemma_digit_char(year / 10 % 10);
    lemma_digit_char(year % 10);
    lemma_digit_char(month / 10 % 10);
    lemma_digit_char(month % 10);
    lemma_digit_char(day / 10 % 10);
    lemma_digit_char(day % 10);
    lemma_digits_of(year);
    lemma_digits_of(month);
    lemma_digits_of(day);
}

/// Every date token is the token of the date it writes.
pub proof fn lemma_token_is_canonical(t: Seq<char>)
    requires
        is_date_token(t),
    ensures
        token_date(t).is_valid(),
        t == date_token(token_year(t) as nat, token_month(t) as nat, token_day(t) as nat),
{
    lemma_digit_value(t[0]);
    lemma_digit_value(t[1]);
    lemma_digit_value(t[2]);
    lemma_digit_value(t[3]);
    lemma_digit_value(t[5]);
    lemma_digit_value(t[6]);
    lemma_digit_value(t[8]);
    lemma_digit_value(t[9]);
    let y = token_year(t) as nat;
    let m = token_month(t) as nat;
    let d = token_day(t) as nat;
    lemma_digits_from(digit_value(t[0]), digit_value(t[1]), digit_value(t[2]), digit_value(t[3]));
    lemma_digits_from(0, 0, digit_value(t[5]), digit_value(t[6]));
    lemma_digits_from(0, 0, digit_value(t[8]), digit_value(t[9]));
    lemma_date_token_chars(y, m, d);
    assert(t =~= date_token(y, m, d));
}

proof fn lemma_date_token_chars(year: nat, month: nat, day: nat)
    ensures
        date_token(year, month, day).len() == 10,
        date_token(year, month, day)[0] == digit_char(year / 1000 % 10),
        date_token(year, month, day)[1] == digit_char(year / 100 % 10),
        date_token(year, month, day)[2] == digit_char(year / 10 % 10),
        date_token(year, month, day)[3] == digit_char(year % 10),
        date_token(year, month, day)[4] == '-',
        date_token(year, month, day)[5] == digit_char(month / 10 % 10),
        date_token(year, month, day)[6] == digit_char(month % 10),
        date_token(year, month, day)[7] == '-',
        date_token(year, month, day)[8] == digit_char(day / 10 % 10),
        date_token(year, month, day)[9] == digit_char(day % 10),
{
}

proof fn lemma_digits_of(n: nat)
    requires
        n <= 9999,
    ensures
        n == 1000 * (n / 1000 % 10) + 100 * (n / 100 % 10) + 10 * (n / 10 % 10) + n % 10,
        n <= 99 ==> n == 10 * (n / 10 % 10) + n % 10,
{
    let tens = n / 10;
    let hundreds = tens / 10;
    let thousands = hundreds / 10;
    assert(n == 10 * tens + n % 10);
    assert(tens == 10 * hundreds + tens % 10);
    assert(hundreds == 10 * thousands + hundreds % 10);
    assert(hundreds == n / 100);
    assert(thousands == n / 1000);
    assert(thousands % 10 == thousands);
}

proof fn lemma_digits_from(a: int, b: int, c: int, d: int)
    requires
        0 <= a <= 9,
        0 <= b <= 9,
        0 <= c <= 9,
        0 <= d <= 9,
    ensures
        (1000 * a + 100 * b + 10 * c + d) / 1000 % 10 == a,
        (1000 * a + 100 * b + 10 * c + d) / 100 % 10 == b,
        (1000 * a + 100 * b + 10 * c + d) / 10 % 10 == c,
        (1000 * a + 100 * b + 10 * c + d) % 10 == d,
{
    let n = 1000 * a + 100 * b + 10 * c + d;
    lemma_fundamental_div_mod_converse(n, 1000, a, 100 * b + 10 * c + d);
    lemma_fundamental_div_mod_converse(n, 100, 10 * a + b, 10 * c + d);
    lemma_fundamental_div_mod_converse(n, 10, 100 * a + 10 * b + c, d);
    lemma_fundamental_div_mod_converse(a, 10, 0, a);
    lemma_fundamental_div_mod_converse(10 * a + b, 10, a, b);
    lemma_fundamental_div_mod_converse(100 * a + 10 * b + c, 10, 10 * a + b, c);
}

proof fn lemma_digit_char(d: nat)
    requires
        d < 10,
    ensures
        is_digit(digit_char(d)),
        digit_value(digit_char(d)) == d,
{
    reveal_strlit("0123456789");
}

proof fn lemma_digit_value(c: char)
    requires
        is_digit(c),
    ensures
        0 <= digit_value(c) <= 9,
        digit_char(digit_value(c) as nat) == c,
{
    reveal_strlit("0123456789");
}

impl Date {
    /// Whether each field lies in its range.
    pub open spec fn is_valid(self) -> bool {
        &&& self.year >= 1
        &&& 1 <= self.month <= 12
        &&& 1 <= self.day <= 31
    }

    /// Whether `self` comes strictly before `other`, by year, then month,
    /// then day.
    pub open spec fn is_before(self, other: Date) -> bool {
        ||| self.year < other.year
        ||| self.year == other.year && self.month < other.month
        ||| self.year == other.year && self.month == other.month && self.day < other.day
    }

    /// How `self` stands to `other`: by year, then month, then day.
    pub open spec fn ordering(self, other: Date) -> Ordering {
        if self.is_before(other) {
            Ordering::Less
        } else if other.is_before(self) {
            Ordering::Greater
        } else {
            Ordering::Equal
        }
    }

    /// Compares two dates by year, then month, then day.
    pub fn compare(&self, other: &Date) -> (o: Ordering)
        ensures
            o == self.ordering(*other),
    {
        if self.year < other.year {
            Ordering::Less
        } else if self.year > other.year {
            Ordering::Greater
        } else if self.month < other.month {
            Ordering::Less
        } else if self.month > other.month {
            Ordering::Greater
        } else if self.day < other.day {
            Ordering::Less
        } else if self.day > other.day {
            Ordering::Greater
        } else {
            Ordering::Equal
        }
    }

    /// Whether `self` is `other` or comes after it.
    pub fn ge(&self, other: &Self) -> (r: bool)
        ensures
            r == !self.is_before(*other),
    {
        if self.year > other.year {
            return true;
        }
        if self.year == other.year && self.month > other.month {
            return true;
        }
        if self.year == other.year && self.month == other.month && self.day >= other.day {
            return true;
        }
        false
    }

    /// Whether `self` is `other` or comes before it.
    pub fn le(&self, other: &Self) -> (r: bool)
        ensures
            r == !other.is_before(*self),
    {
        if self.year < other.year {
            return true;
        }
        if self.year == other.year && self.month < other.month {
            return true;
        }
        if self.year == other.year && self.month == other.month && self.day <= other.day {
            return true;
        }
        false
    }
}

/// The order of dates is total: of two dates, one comes before the other,
/// or they are the same date, and never two of these at once.
pub proof fn lemma_order_total(a: Date, b: Date)
    ensures
        a.is_before(b) || a == b || b.is_before(a),
        !(a.is_before(b) && b.is_before(a)),
        !(a.is_before(b) && a == b),
        a.ordering(b) == Ordering::Equal <==> a == b,
        a.ordering(b) == Ordering::Less <==> b.ordering(a) == Ordering::Greater,
{
}

/// The order of dates is transitive, strictly and with equality admitted.
pub proof fn lemma_order_transitive(a: Date, b: Date, c: Date)
    ensures
        a.is_before(b) && b.is_before(c) ==> a.is_before(c),
        !b.is_before(a) && !c.is_before(b) ==> !c.is_before(a),
        a.ordering(b) != Ordering::Greater && b.ordering(c) != Ordering::Greater ==> a.ordering(c)
            != Ordering::Greater,
{
}

} // verus!
