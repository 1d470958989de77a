//! Birthdays: reading `BDAY` dates and writing them back in the card's form.

use vstd::prelude::*;
use vstd::utf8::encode_utf8;

use crate::card::line::{char_width, find_char, first_at, lemma_first_at_unique, texts, utf8_width};
use crate::text::{
    chars_of, decimal, eq_ic, eq_ignore_case, padded_decimal, push_all, string_of, zero_pad,
};

verus! {

/// A birthday: a date, with or without a year, or a value that could not
/// be read and is kept as it was.
#[derive(Debug, PartialEq, Eq)]
pub enum Birthday {
    Date { year: Option<u16>, month: u8, day: u8 },
    Invalid(String),
}

impl Clone for Birthday {
    fn clone(&self) -> (r: Self)
        ensures
            r == *self,
    {
        match self {
            Birthday::Date { year, month, day } => Birthday::Date { year: *year, month: *month, day: *day },
            Birthday::Invalid(raw) => Birthday::Invalid(raw.clone()),
        }
    }
}

pub open spec fn is_digit(b: u8) -> bool {
    0x30 <= b <= 0x39
}

/// The value of decimal digits.
pub open spec fn digits_value(s: Seq<u8>) -> int
    decreases s.len(),
{
    if s.len() == 0 {
        0
    } else {
        digits_value(s.drop_last()) * 10 + (s.last() - 0x30)
    }
}

/// A number of one or more ASCII digits that fits in 16 bits.
pub open spec fn number(s: Seq<u8>) -> Option<int> {
    if s.len() > 0 && (forall|i: int| 0 <= i < s.len() ==> is_digit(#[trigger] s[i])) && digits_value(s)
        <= 65535 {
        Some(digits_value(s))
    } else {
        None
    }
}

/// Days in a month; a date without a year allows the 29th of February.
pub open spec fn days_in(month: int, year: Option<int>) -> int {
    let is_leap = match year {
        None => true,
        Some(y) => y % 4 == 0 && (y % 100 != 0 || y % 400 == 0),
    };
    if month == 2 {
        if is_leap {
            29
        } else {
            28
        }
    } else if month == 4 || month == 6 || month == 9 || month == 11 {
        30
    } else {
        31
    }
}

/// The bytes before the first `T`, or all of them.
pub open spec fn date_part(v: Seq<u8>) -> Seq<u8> {
    if exists|i: int| 0 <= i < v.len() && v[i] == 0x54u8 && forall|j: int| 0 <= j < i ==> v[j] != 0x54u8 {
        v.take(choose|i: int| 0 <= i < v.len() && v[i] == 0x54u8 && forall|j: int| 0 <= j < i ==> v[j] != 0x54u8)
    } else {
        v
    }
}

/// The year (absent when it is `--` or the year that marks an omitted
/// year) and the month-day bytes of a date.
pub open spec fn year_and_rest(date: Seq<u8>, omitted: Option<Seq<u8>>) -> Option<(Option<int>, Seq<u8>)> {
    if date.len() >= 2 && date[0] == 0x2Du8 && date[1] == 0x2Du8 {
        Some((None, date.skip(2)))
    } else if date.len() < 4 {
        None
    } else {
        match number(date.take(4)) {
            None => None,
            Some(n) => {
                let rest = date.skip(4);
                Some(
                    (
                        if omitted == Some(date.take(4)) {
                            None
                        } else {
                            Some(n)
                        },
                        if rest.len() > 0 && rest[0] == 0x2Du8 {
                            rest.skip(1)
                        } else {
                            rest
                        },
                    ),
                )
            },
        }
    }
}

/// The month and day bytes: `MMDD` or `MM-DD`.
pub open spec fn month_and_day(md: Seq<u8>) -> Option<(Seq<u8>, Seq<u8>)> {
    if md.len() == 4 {
        Some((md.take(2), md.skip(2)))
    } else if md.len() == 5 && md[2] == 0x2Du8 {
        Some((md.take(2), md.skip(3)))
    } else {
        None
    }
}

/// The date a `BDAY` value's bytes read as: year (if any), month and day,
/// with the month in 1..=12 and the day valid for it.
pub open spec fn read_date_spec(v: Seq<u8>, omitted: Option<Seq<u8>>) -> Option<(Option<int>, int, int)> {
    match year_and_rest(date_part(v), omitted) {
        None => None,
        Some((year, md)) => match month_and_day(md) {
            None => None,
            Some((m, d)) => match (number(m), number(d)) {
                (Some(month), Some(day)) => if 1 <= month <= 12 && 1 <= day <= days_in(month, year) {
                    Some((year, month, day))
                } else {
                    None
                },
                _ => None,
            },
        },
    }
}

/// Reads a number of ASCII digits.
fn read_number(s: &[u8]) -> (r: Option<u16>)
    ensures
        match r {
            Some(n) => number(s@) == Some(n as int),
            None => number(s@) is None,
        },
{
    if s.len() == 0 {
        return None;
    }
    let mut value: u64 = 0;
    let mut i: usize = 0;
    while i < s.len()
        invariant
            i <= s@.len(),
            value == digits_value(s@.take(i as int)),
            value <= 65535,
            forall|j: int| 0 <= j < i ==> is_digit(#[trigger] s@[j]),
        decreases s.len() - i,
    {
        assert(s@.take(i + 1).drop_last() == s@.take(i as int));
        let b = s[i];
        if !(b >= 0x30 && b <= 0x39) {
            assert(!is_digit(s@[i as int]));
            return None;
        }
        let next = value * 10 + (b - 0x30) as u64;
        if next > 65535 {
            proof {
                assert(s@.take(i + 1).drop_last() == s@.take(i as int));
                if forall|j: int| 0 <= j < s@.len() ==> is_digit(#[trigger] s@[j]) {
                    lemma_digits_value_grows(s@, i + 1);
                }
            }
            return None;
        }
        value = next;
        i += 1;
    }
    assert(s@.take(s@.len() as int) == s@);
    Some(value as u16)
}

/// The value of a prefix of digits is at most the value of all of them.
proof fn lemma_digits_value_grows(s: Seq<u8>, k: int)
    requires
        0 <= k <= s.len(),
        forall|j: int| 0 <= j < s.len() ==> is_digit(#[trigger] s[j]),
    ensures
        0 <= digits_value(s.take(k)) <= digits_value(s),
    decreases s.len() - k,
{
    if k < s.len() {
        lemma_digits_value_grows(s, k + 1);
        assert(s.take(k + 1).drop_last() == s.take(k));
        assert(s.take(k + 1).last() == s[k]);
        assert(is_digit(s[k]));
    } else {
        assert(s.take(k) == s);
        lemma_digits_value_nonneg(s);
    }
}

proof fn lemma_digits_value_nonneg(s: Seq<u8>)
    requires
        forall|j: int| 0 <= j < s.len() ==> is_digit(#[trigger] s[j]),
    ensures
        digits_value(s) >= 0,
    decreases s.len(),
{
    if s.len() > 0 {
        lemma_digits_value_nonneg(s.drop_last());
        assert(is_digit(s[s.len() - 1]));
    }
}

/// Days in a month.
fn days_in_month(month: u8, year: Option<u16>) -> (d: u8)
    ensures
        d == days_in(month as int, match year {
            Some(y) => Some(y as int),
            None => None,
        }),
{
    let is_leap = match year {
        None => true,
        Some(y) => y % 4 == 0 && (y % 100 != 0 || y % 400 == 0),
    };
    if month == 2 {
        if is_leap {
            29
        } else {
            28
        }
    } else if month == 4 || month == 6 || month == 9 || month == 11 {
        30
    } else {
        31
    }
}

/// Reads a `BDAY` value's date.
fn read_date(v: &[u8], omitted: Option<&[u8]>) -> (r: Option<(Option<u16>, u8, u8)>)
    ensures
        match r {
            Some((year, month, day)) => read_date_spec(v@, match omitted {
                Some(o) => Some(o@),
                None => None,
            }) == Some(
                (
                    match year {
                        Some(y) => Some(y as int),
                        None => None,
                    },
                    month as int,
                    day as int,
                ),
            ),
            None => read_date_spec(v@, match omitted {
                Some(o) => Some(o@),
                None => None,
            }) is None,
        },
{
    let ghost om = match omitted {
        Some(o) => Some(o@),
        None => None,
    };
    // the date before `T`
    let mut t: usize = 0;
    while t < v.len() && v[t] != 0x54u8
        invariant
            t <= v@.len(),
            forall|j: int| 0 <= j < t ==> v@[j] != 0x54u8,
        decreases v.len() - t,
    {
        t += 1;
    }
    proof {
        if t < v@.len() {
            let k = choose|i: int| 0 <= i < v@.len() && v@[i] == 0x54u8 && forall|j: int| 0 <= j < i ==> v@[j] != 0x54u8;
            assert(k == t) by {
                if k < t {
                    assert(v@[k] != 0x54u8);
                } else if k > t {
                    assert(v@[t as int] != 0x54u8);
                }
            }
        } else {
            assert(v@.take(t as int) == v@);
        }
    }
    let date = crate::text::copy_range(v, 0, t);
    assert(date@ == date_part(v@));
    let (year, md): (Option<u16>, Vec<u8>) = if date.len() >= 2 && date[0] == 0x2Du8 && date[1] == 0x2Du8 {
        (None, crate::text::copy_range(&date, 2, date.len()))
    } else if date.len() < 4 {
        return None;
    } else {
        let ys = crate::text::copy_range(&date, 0, 4);
        let n = match read_number(&ys) {
            Some(n) => n,
            None => return None,
        };
        let is_omitted = match omitted {
            Some(o) => crate::card::bday::same_bytes(o, &ys),
            None => false,
        };
        let start: usize = if date.len() > 4 && date[4] == 0x2Du8 {
            5
        } else {
            4
        };
        let rest = crate::text::copy_range(&date, start, date.len());
        assert(rest@ == (if date@.skip(4).len() > 0 && date@.skip(4)[0] == 0x2Du8 {
            date@.skip(4).skip(1)
        } else {
            date@.skip(4)
        }));
        (if is_omitted {
            None
        } else {
            Some(n)
        }, rest)
    };
    assert(year_and_rest(date@, om) == Some(
        (
            match year {
                Some(y) => Some(y as int),
                None => None,
            },
            md@,
        ),
    ));
    let (m, d) = if md.len() == 4 {
        (crate::text::copy_range(&md, 0, 2), crate::text::copy_range(&md, 2, 4))
    } else if md.len() == 5 && md[2] == 0x2Du8 {
        (crate::text::copy_range(&md, 0, 2), crate::text::copy_range(&md, 3, 5))
    } else {
        return None;
    };
    let month = match read_number(&m) {
        Some(x) => x,
        None => return None,
    };
    let day = match read_number(&d) {
        Some(x) => x,
        None => return None,
    };
    if month < 1 || month > 12 {
        return None;
    }
    let days = days_in_month(month as u8, year);
    if day < 1 || day > days as u16 {
        return None;
    }
    Some((year, month as u8, day as u8))
}

/// Whether two byte sequences are equal.
fn same_bytes(a: &[u8], b: &[u8]) -> (r: bool)
    ensures
        r == (a@ == b@),
{
    if a.len() != b.len() {
        return false;
    }
    let mut i: usize = 0;
    while i < a.len()
        invariant
            a.len() == b.len(),
            i <= a.len(),
            forall|j: int| 0 <= j < i ==> a@[j] == b@[j],
        decreases a.len() - i,
    {
        if a[i] != b[i] {
            return false;
        }
        i += 1;
    }
    assert(a@ =~= b@);
    true
}


/// The parameter is `X-APPLE-OMIT-YEAR=…` (name compared ignoring ASCII case).
pub open spec fn is_omit_year(p: Seq<char>) -> bool {
    exists|i: int| first_at(p, '=', i) && eq_ic(p.take(i), "X-APPLE-OMIT-YEAR"@)
}

/// The text after a parameter's first `=`.
pub open spec fn param_value(p: Seq<char>) -> Seq<char> {
    p.skip((choose|i: int| first_at(p, '=', i)) + 1)
}

/// `k` is the first `X-APPLE-OMIT-YEAR` parameter.
pub open spec fn first_omit(ps: Seq<Seq<char>>, k: int) -> bool {
    0 <= k < ps.len() && is_omit_year(ps[k]) && forall|j: int| 0 <= j < k ==> !is_omit_year(#[trigger] ps[j])
}

/// The year that marks a date's year as omitted, from the first
/// `X-APPLE-OMIT-YEAR` parameter.
pub open spec fn omitted_year_spec(ps: Seq<Seq<char>>) -> Option<Seq<char>> {
    if exists|k: int| first_omit(ps, k) {
        Some(param_value(ps[choose|k: int| first_omit(ps, k)]))
    } else {
        None
    }
}

/// The date a `BDAY` value with parameters reads as.
pub open spec fn bday_date(value: Seq<char>, params: Seq<Seq<char>>) -> Option<(Option<int>, int, int)> {
    read_date_spec(
        encode_utf8(value),
        match omitted_year_spec(params) {
            Some(y) => Some(encode_utf8(y)),
            None => None,
        },
    )
}

/// The birthday read from a value: its date, or the value kept as invalid.
pub open spec fn birthday_matches(b: Birthday, date: Option<(Option<int>, int, int)>, raw: Seq<char>) -> bool {
    match b {
        Birthday::Date { year, month, day } => date == Some(
            (
                match year {
                    Some(y) => Some(y as int),
                    None => None,
                },
                month as int,
                day as int,
            ),
        ),
        Birthday::Invalid(r) => date is None && r@ == raw,
    }
}

/// Whether a parameter is `X-APPLE-OMIT-YEAR=…`, and where its `=` is.
fn omit_param(p: &[char]) -> (r: Option<usize>)
    ensures
        match r {
            Some(i) => is_omit_year(p@) && first_at(p@, '=', i as int),
            None => !is_omit_year(p@),
        },
{
    match find_char(p, '=') {
        Some(i) => {
            let name = crate::text::copy_range(p, 0, i);
            if eq_ignore_case(&name, &chars_of("X-APPLE-OMIT-YEAR")) {
                Some(i)
            } else {
                proof {
                    if is_omit_year(p@) {
                        let k = choose|k: int|
                            first_at(p@, '=', k) && eq_ic(p@.take(k), "X-APPLE-OMIT-YEAR"@);
                        lemma_first_at_unique(p@, '=', k, i as int);
                    }
                }
                None
            }
        },
        None => None,
    }
}

/// The position of the first `X-APPLE-OMIT-YEAR` parameter.
fn first_omit_index(params: &[String]) -> (r: Option<usize>)
    ensures
        match r {
            Some(k) => first_omit(texts(params@), k as int),
            None => !exists|k: int| first_omit(texts(params@), k),
        },
{
    let ghost ps = texts(params@);
    let mut i: usize = 0;
    while i < params.len()
        invariant
            i <= params@.len(),
            ps == texts(params@),
            forall|j: int| 0 <= j < i ==> !is_omit_year(#[trigger] ps[j]),
        decreases params.len() - i,
    {
        let p = chars_of(params[i].as_str());
        assert(p@ == ps[i as int]);
        if omit_param(&p).is_some() {
            return Some(i);
        }
        i += 1;
    }
    proof {
        if exists|k: int| first_omit(ps, k) {
            let k = choose|k: int| first_omit(ps, k);
            assert(!is_omit_year(ps[k]));
        }
    }
    None
}

/// The year that marks a date's year as omitted.
fn omitted_year(params: &[String]) -> (r: Option<Vec<char>>)
    ensures
        match r {
            Some(y) => omitted_year_spec(texts(params@)) == Some(y@),
            None => omitted_year_spec(texts(params@)) is None,
        },
{
    match first_omit_index(params) {
        Some(k) => {
            proof {
                let c = choose|c: int| first_omit(texts(params@), c);
                assert(c == k) by {
                    if c < k {
                        assert(!is_omit_year(texts(params@)[c]));
                    } else if c > k {
                        assert(!is_omit_year(texts(params@)[k as int]));
                    }
                }
            }
            let p = chars_of(params[k].as_str());
            assert(p@ == texts(params@)[k as int]);
            let eq = omit_param(&p).unwrap();
            proof {
                let c = choose|i: int| first_at(p@, '=', i);
                lemma_first_at_unique(p@, '=', c, eq as int);
            }
            assert(first_at(p@, '=', eq as int));
            assert(eq < p.len());
            Some(crate::text::copy_range(&p, eq + 1, p.len()))
        },
        None => None,
    }
}

impl Birthday {
    /// Reads a `BDAY` value with its parameters.
    pub(crate) fn parse(value: &str, params: &[String]) -> (b: Self)
        ensures
            birthday_matches(b, bday_date(value@, texts(params@)), value@),
    {
        let v = value.as_bytes_vec();
        let omitted = match omitted_year(params) {
            Some(y) => Some(crate::text::encode_chars(&y)),
            None => None,
        };
        let date = match &omitted {
            Some(o) => read_date(v.as_slice(), Some(o.as_slice())),
            None => read_date(v.as_slice(), None),
        };
        match date {
            Some((year, month, day)) => Birthday::Date { year, month, day },
            None => Birthday::Invalid(string_of(&chars_of(value))),
        }
    }

    /// Reads a date typed as `YYYY-MM-DD` or `--MM-DD` (or another form a
    /// card may hold); `None` when it is not a valid date.
    pub fn from_iso(text: &str) -> (b: Option<Self>)
        ensures
            match b {
                Some(b) => b is Date && birthday_matches(b, read_date_spec(encode_utf8(text@), None), text@),
                None => read_date_spec(encode_utf8(text@), None) is None,
            },
    {
        let v = text.as_bytes_vec();
        match read_date(v.as_slice(), None) {
            Some((year, month, day)) => Some(Birthday::Date { year, month, day }),
            None => None,
        }
    }

    /// Whether the birthday cannot be edited: it was not a readable date.
    pub fn is_read_only(&self) -> (r: bool)
        ensures
            r == (*self is Invalid),
    {
        match self {
            Birthday::Invalid(_) => true,
            _ => false,
        }
    }
}

/// The ISO text of a date: `YYYY-MM-DD`, or `--MM-DD` without a year.
pub open spec fn iso_text(year: Option<int>, month: int, day: int) -> Seq<char> {
    let md = zero_pad(decimal(month as nat), 2) + seq!['-'] + zero_pad(decimal(day as nat), 2);
    match year {
        Some(y) => zero_pad(decimal(y as nat), 4) + seq!['-'] + md,
        None => seq!['-', '-'] + md,
    }
}

/// English month names.
pub open spec fn month_name(m: int) -> Seq<char> {
    if m == 1 { "January"@ } else if m == 2 { "February"@ } else if m == 3 { "March"@ } else if m == 4 {
        "April"@
    } else if m == 5 { "May"@ } else if m == 6 { "June"@ } else if m == 7 { "July"@ } else if m == 8 {
        "August"@
    } else if m == 9 { "September"@ } else if m == 10 { "October"@ } else if m == 11 { "November"@ } else {
        "December"@
    }
}

/// How a date is shown: `4 July 1985`, or `15 March` without a year.
pub open spec fn shown_date(year: Option<int>, month: int, day: int) -> Seq<char> {
    let dm = decimal(day as nat) + seq![' '] + month_name(month);
    match year {
        Some(y) => dm + seq![' '] + decimal(y as nat),
        None => dm,
    }
}

fn month_text(m: u8) -> (r: &'static str)
    requires
        1 <= m <= 12,
    ensures
        r@ == month_name(m as int),
{
    if m == 1 { "January" } else if m == 2 { "February" } else if m == 3 { "March" } else if m == 4 {
        "April"
    } else if m == 5 { "May" } else if m == 6 { "June" } else if m == 7 { "July" } else if m == 8 {
        "August"
    } else if m == 9 { "September" } else if m == 10 { "October" } else if m == 11 { "November" } else {
        "December"
    }
}

impl Birthday {
    /// The ISO text: `YYYY-MM-DD`, `--MM-DD`, or the value as it was.
    pub fn to_iso(&self) -> (s: String)
        ensures
            match *self {
                Birthday::Date { year, month, day } => s@ == iso_text(
                    match year {
                        Some(y) => Some(y as int),
                        None => None,
                    },
                    month as int,
                    day as int,
                ),
                Birthday::Invalid(raw) => s@ == raw@,
            },
    {
        match self {
            Birthday::Date { year, month, day } => {
                let mut out: Vec<char> = Vec::new();
                match year {
                    Some(y) => {
                        push_all(&mut out, &padded_decimal(*y as u64, 4));
                        out.push('-');
                    },
                    None => {
                        out.push('-');
                        out.push('-');
                    },
                }
                push_all(&mut out, &padded_decimal(*month as u64, 2));
                out.push('-');
                push_all(&mut out, &padded_decimal(*day as u64, 2));
                let ghost md = zero_pad(decimal(*month as nat), 2) + seq!['-'] + zero_pad(decimal(*day as nat), 2);
                match year {
                    Some(y) => assert(out@ =~= zero_pad(decimal(*y as nat), 4) + seq!['-'] + md),
                    None => assert(out@ =~= seq!['-', '-'] + md),
                }
                string_of(&out)
            },
            Birthday::Invalid(raw) => raw.clone(),
        }
    }

    /// How the birthday is shown: `4 July 1985`, `15 March`, or the value
    /// as it was.
    pub fn to_text(&self) -> (s: String)
        requires
            *self matches Birthday::Date { month, .. } ==> 1 <= month <= 12,
        ensures
            match *self {
                Birthday::Date { year, month, day } => s@ == shown_date(
                    match year {
                        Some(y) => Some(y as int),
                        None => None,
                    },
                    month as int,
                    day as int,
                ),
                Birthday::Invalid(raw) => s@ == raw@,
            },
    {
        match self {
            Birthday::Date { year, month, day } => {
                let mut out = crate::text::decimal_digits(*day as u64);
                out.push(' ');
                push_all(&mut out, &chars_of(month_text(*month)));
                match year {
                    Some(y) => {
                        out.push(' ');
                        push_all(&mut out, &crate::text::decimal_digits(*y as u64));
                    },
                    None => {},
                }
                string_of(&out)
            },
            Birthday::Invalid(raw) => raw.clone(),
        }
    }
}

/// A date read from a card has a month in 1..=12.
pub proof fn lemma_read_date_month(v: Seq<u8>, omitted: Option<Seq<u8>>)
    ensures
        read_date_spec(v, omitted) matches Some((y, m, d)) ==> 1 <= m <= 12 && 1 <= d <= 31,
{
}


/// The number of leading characters whose UTF-8 encoding takes exactly `n`
/// bytes; `None` when `n` falls inside a character or beyond the text.
pub open spec fn char_prefix(s: Seq<char>, n: int) -> Option<int>
    decreases s.len(),
{
    if n == 0 {
        Some(0)
    } else if s.len() == 0 || n < 0 {
        None
    } else if char_width(s[0]) > n {
        None
    } else {
        match char_prefix(s.skip(1), n - char_width(s[0])) {
            Some(k) => Some(k + 1),
            None => None,
        }
    }
}

/// The parameters without `X-APPLE-OMIT-YEAR` ones.
pub open spec fn without_omit(ps: Seq<Seq<char>>) -> Seq<Seq<char>>
    decreases ps.len(),
{
    if ps.len() == 0 {
        Seq::empty()
    } else if is_omit_year(ps.last()) {
        without_omit(ps.drop_last())
    } else {
        without_omit(ps.drop_last()).push(ps.last())
    }
}

/// The position of the first `T`, or the length.
pub open spec fn time_start(v: Seq<char>) -> int {
    if exists|i: int| first_at(v, 'T', i) {
        choose|i: int| first_at(v, 'T', i)
    } else {
        v.len() as int
    }
}

/// The index of the first omit-year parameter.
pub open spec fn omit_index(ps: Seq<Seq<char>>) -> Option<int> {
    if exists|k: int| first_omit(ps, k) {
        Some(choose|k: int| first_omit(ps, k))
    } else {
        None
    }
}

/// The date part after its year: after `--`, or after its first four bytes.
pub open spec fn month_day_part(date: Seq<char>) -> Seq<char> {
    if date.len() >= 2 && date[0] == '-' && date[1] == '-' {
        date.skip(2)
    } else {
        match char_prefix(date, 4) {
            Some(k) => date.skip(k),
            None => Seq::empty(),
        }
    }
}

/// The parameters and value that write a date into an existing `BDAY`
/// (parameters and value) in its own form: an Apple card (an
/// `X-APPLE-OMIT-YEAR` parameter, or a vCard 3 value with a year) keeps
/// the omitted-year marker year; a vCard 4 card writes `--MMDD`; a value
/// written without dashes stays without; the time part is kept.
pub open spec fn write_spec(
    year: Option<int>,
    month: int,
    day: int,
    params: Seq<Seq<char>>,
    value: Seq<char>,
    is_v4: bool,
) -> (Seq<Seq<char>>, Seq<char>) {
    let t = time_start(value);
    let date = value.take(t);
    let time = value.skip(t);
    let omit = omit_index(params);
    let starts_dd = date.len() >= 2 && date[0] == '-' && date[1] == '-';
    let month_day = month_day_part(date);
    let is_apple = omit is Some || (!is_v4 && !starts_dd);
    let is_basic = if date.len() == 0 {
        is_v4
    } else if year is None && !is_apple && !starts_dd {
        true
    } else {
        !(exists|k: int| 0 <= k < month_day.len() && month_day[k] == '-')
    };
    let sep = if is_basic {
        Seq::<char>::empty()
    } else {
        seq!['-']
    };
    let md = zero_pad(decimal(month as nat), 2) + sep + zero_pad(decimal(day as nat), 2);
    let kept = without_omit(params);
    match year {
        Some(y) => (kept, zero_pad(decimal(y as nat), 4) + sep + md + time),
        None => if is_apple {
            match omit {
                Some(i) => (kept.insert(i, params[i]), param_value(params[i]) + sep + md + time),
                None => (kept.insert(0, "X-APPLE-OMIT-YEAR=1604"@), "1604"@ + sep + md + time),
            }
        } else {
            (kept, seq!['-', '-'] + md + time)
        },
    }
}

/// The first characters that take exactly `n` bytes.
fn prefix_chars(s: &[char], n: usize) -> (r: Option<usize>)
    requires
        n <= 4,
    ensures
        match r {
            Some(k) => char_prefix(s@, n as int) == Some(k as int) && k <= s@.len(),
            None => char_prefix(s@, n as int) is None,
        },
{
    let mut i: usize = 0;
    let mut left: usize = n;
    assert(s@.skip(0) == s@);
    while left > 0
        invariant
            i <= s@.len(),
            left <= n,
            match char_prefix(s@.skip(i as int), left as int) {
                Some(k) => char_prefix(s@, n as int) == Some(k + i),
                None => char_prefix(s@, n as int) is None,
            },
        decreases left,
    {
        let ghost rest = s@.skip(i as int);
        if i == s.len() {
            return None;
        }
        let w = utf8_width(s[i]);
        assert(rest[0] == s@[i as int]);
        if w > left {
            return None;
        }
        assert(rest.skip(1) == s@.skip(i + 1));
        left = left - w;
        i += 1;
    }
    Some(i)
}

/// The parameters without omit-year ones.
fn kept_params(params: &[String], omit: Option<usize>) -> (kept: Vec<String>)
    requires
        match omit {
            Some(k) => first_omit(texts(params@), k as int),
            None => true,
        },
    ensures
        texts(kept@) == without_omit(texts(params@)),
        match omit {
            Some(k) => kept@.len() >= k,
            None => true,
        },
{
    let ghost ps = texts(params@);
    let mut kept: Vec<String> = Vec::new();
    let mut i: usize = 0;
    while i < params.len()
        invariant
            i <= params@.len(),
            ps == texts(params@),
            texts(kept@) == without_omit(ps.take(i as int)),
            match omit {
                Some(k) => (i <= k ==> kept@.len() == i) && (i > k ==> kept@.len() >= k),
                None => true,
            },
            match omit {
                Some(k) => first_omit(ps, k as int),
                None => true,
            },
        decreases params.len() - i,
    {
        assert(ps.take(i + 1).drop_last() == ps.take(i as int));
        let p = chars_of(params[i].as_str());
        assert(p@ == ps[i as int]);
        if omit_param(&p).is_none() {
            let ghost old = texts(kept@);
            kept.push(string_of(&p));
            assert(texts(kept@) =~= old.push(p@));
        } else {
            proof {
                match omit {
                    Some(k) => {
                        if i < k {
                            assert(!is_omit_year(ps[i as int]));
                        }
                    },
                    None => {},
                }
            }
        }
        i += 1;
    }
    assert(ps.take(params@.len() as int) == ps);
    kept
}

/// The value of the omit-year parameter at `k`.
fn omit_value_at(params: &[String], k: usize) -> (r: (Vec<char>, String))
    requires
        k < params@.len(),
        is_omit_year(params@[k as int]@),
    ensures
        r.0@ == param_value(params@[k as int]@),
        r.1@ == params@[k as int]@,
{
    let p = chars_of(params[k].as_str());
    let eq = omit_param(&p).unwrap();
    proof {
        let c = choose|i: int| first_at(p@, '=', i);
        lemma_first_at_unique(p@, '=', c, eq as int);
    }
    assert(first_at(p@, '=', eq as int));
    assert(eq < p.len());
    (crate::text::copy_range(&p, eq + 1, p.len()), string_of(&p))
}

/// Splits a value at its first `T` into date and time.
fn split_time(value: &[char]) -> (r: (Vec<char>, Vec<char>))
    ensures
        r.0@ == value@.take(time_start(value@)),
        r.1@ == value@.skip(time_start(value@)),
{
    let t = match find_char(value, 'T') {
        Some(t) => {
            proof {
                let c = choose|i: int| first_at(value@, 'T', i);
                lemma_first_at_unique(value@, 'T', c, t as int);
            }
            t
        },
        None => value.len(),
    };
    assert(t as int == time_start(value@));
    (crate::text::copy_range(value, 0, t), crate::text::copy_range(value, t, value.len()))
}

/// The date part after its year.
fn month_day_of(date: &[char]) -> (r: Vec<char>)
    ensures
        r@ == month_day_part(date@),
{
    if date.len() >= 2 && date[0] == '-' && date[1] == '-' {
        crate::text::copy_range(date, 2, date.len())
    } else {
        match prefix_chars(date, 4) {
            Some(k) => crate::text::copy_range(date, k, date.len()),
            None => Vec::new(),
        }
    }
}

impl Birthday {
    /// The parameters and value that write a date into a `BDAY` property,
    /// keeping the form the card already uses (see `write_spec`).
    pub fn write(
        year: Option<u16>,
        month: u8,
        day: u8,
        existing: Option<(&[String], &str)>,
        is_v4: bool,
    ) -> (r: (Vec<String>, String))
        ensures
            ({
                let (ps, v) = match existing {
                    Some((p, v)) => (texts(p@), v@),
                    None => (Seq::<Seq<char>>::empty(), Seq::<char>::empty()),
                };
                (texts(r.0@), r.1@) == write_spec(
                    match year {
                        Some(y) => Some(y as int),
                        None => None,
                    },
                    month as int,
                    day as int,
                    ps,
                    v,
                    is_v4,
                )
            }),
    {
        let empty: Vec<String> = Vec::new();
        let (params, value): (&[String], Vec<char>) = match existing {
            Some((p, v)) => (p, chars_of(v)),
            None => (empty.as_slice(), Vec::new()),
        };
        assert(texts(empty@) =~= Seq::<Seq<char>>::empty());
        let ghost ps = texts(params@);
        let (date, time) = split_time(&value);
        let omit = first_omit_index(params);
        proof {
            match omit {
                Some(k) => {
                    let c = choose|c: int| first_omit(ps, c);
                    assert(c == k) by {
                        if c < k {
                            assert(!is_omit_year(ps[c]));
                        } else if c > k {
                            assert(!is_omit_year(ps[k as int]));
                        }
                    }
                },
                None => {},
            }
        }
        let starts_dd = date.len() >= 2 && date[0] == '-' && date[1] == '-';
        let month_day = month_day_of(&date);
        let is_apple = omit.is_some() || (!is_v4 && !starts_dd);
        let is_basic = if date.len() == 0 {
            is_v4
        } else if year.is_none() && !is_apple && !starts_dd {
            true
        } else {
            find_char(&month_day, '-').is_none()
        };
        let mut md = padded_decimal(month as u64, 2);
        if !is_basic {
            md.push('-');
        }
        push_all(&mut md, &padded_decimal(day as u64, 2));
        let ghost sep = if is_basic {
            Seq::<char>::empty()
        } else {
            seq!['-']
        };
        assert(md@ =~= zero_pad(decimal(month as nat), 2) + sep + zero_pad(decimal(day as nat), 2));
        let mut kept = kept_params(params, omit);
        let mut out: Vec<char> = Vec::new();
        match year {
            Some(y) => {
                push_all(&mut out, &padded_decimal(y as u64, 4));
            },
            None => {
                if is_apple {
                    match omit {
                        Some(k) => {
                            let (value_text, param) = omit_value_at(params, k);
                            push_all(&mut out, &value_text);
                            let ghost old = texts(kept@);
                            kept.insert(k, param);
                            assert(texts(kept@) =~= old.insert(k as int, ps[k as int]));
                        },
                        None => {
                            push_all(&mut out, &chars_of("1604"));
                            let ghost old = texts(kept@);
                            kept.insert(0, string_of(&chars_of("X-APPLE-OMIT-YEAR=1604")));
                            assert(texts(kept@) =~= old.insert(0, "X-APPLE-OMIT-YEAR=1604"@));
                        },
                    }
                } else {
                    out.push('-');
                    out.push('-');
                }
            },
        }
        let ghost head = out@;
        if year.is_some() || is_apple {
            if !is_basic {
                out.push('-');
            }
        }
        push_all(&mut out, &md);
        push_all(&mut out, &time);
        proof {
            if year.is_some() || is_apple {
                assert(out@ =~= head + sep + md@ + time@);
            } else {
                assert(out@ =~= head + md@ + time@);
            }
        }
        (kept, string_of(&out))
    }
}

proof fn lemma_digits_value(b: Seq<u8>, s: Seq<char>)
    requires
        b.len() == s.len(),
        forall|k: int| 0 <= k < s.len() ==> crate::text::is_digit_char(#[trigger] s[k]),
        forall|k: int| 0 <= k < s.len() ==> b[k] == #[trigger] s[k] as u8,
    ensures
        digits_value(b) == crate::text::digits_of_chars(s),
        forall|k: int| 0 <= k < b.len() ==> is_digit(#[trigger] b[k]),
    decreases s.len(),
{
    if s.len() > 0 {
        lemma_digits_value(b.drop_last(), s.drop_last());
        assert(b.last() == s.last() as u8);
        assert(crate::text::is_digit_char(s.last()));
    }
    assert forall|k: int| 0 <= k < b.len() implies is_digit(#[trigger] b[k]) by {
        assert(crate::text::is_digit_char(s[k]));
    }
}

proof fn lemma_number_of(b: Seq<u8>, s: Seq<char>)
    requires
        b.len() == s.len(),
        s.len() > 0,
        forall|k: int| 0 <= k < s.len() ==> crate::text::is_digit_char(#[trigger] s[k]),
        forall|k: int| 0 <= k < s.len() ==> b[k] == #[trigger] s[k] as u8,
        crate::text::digits_of_chars(s) <= 65535,
    ensures
        number(b) == Some(crate::text::digits_of_chars(s)),
{
    lemma_digits_value(b, s);
}

/// Two digits for a number below 100, four for one below 10000.
proof fn lemma_padded(n: nat, w: int)
    requires
        w == 2 && n < 100 || w == 4 && n < 10000,
    ensures
        zero_pad(decimal(n), w).len() == w,
        forall|k: int| 0 <= k < w ==> crate::text::is_digit_char(#[trigger] zero_pad(decimal(n), w)[k]),
        crate::text::digits_of_chars(zero_pad(decimal(n), w)) == n,
{
    crate::text::lemma_decimal(n);
    crate::text::lemma_zero_pad(decimal(n), w);
}

/// Reading the ISO text of a valid date (`YYYY-MM-DD` for a year up to
/// 9999, `--MM-DD` without a year) gives the date back.
pub proof fn lemma_iso_roundtrip(year: Option<int>, month: int, day: int)
    requires
        1 <= month <= 12,
        1 <= day <= days_in(month, year),
        year matches Some(y) ==> 0 <= y <= 9999,
    ensures
        read_date_spec(encode_utf8(iso_text(year, month, day)), None) == Some((year, month, day)),
{
    let mm = zero_pad(decimal(month as nat), 2);
    let dd = zero_pad(decimal(day as nat), 2);
    lemma_padded(month as nat, 2);
    lemma_padded(day as nat, 2);
    let md = mm + seq!['-'] + dd;
    let t = iso_text(year, month, day);
    let pre = match year {
        Some(y) => zero_pad(decimal(y as nat), 4) + seq!['-'],
        None => seq!['-', '-'],
    };
    if let Some(y) = year {
        lemma_padded(y as nat, 4);
    }
    assert(t =~= pre + md);
    assert forall|k: int| 0 <= k < t.len() implies #[trigger] t[k] == '-' || crate::text::is_digit_char(t[k]) by {
        if k < pre.len() {
            assert(t[k] == pre[k]);
        } else if k < pre.len() + 2 {
            assert(t[k] == mm[k - pre.len()]);
        } else if k > pre.len() + 2 {
            assert(t[k] == dd[k - pre.len() - 3]);
        }
    }
    assert(vstd::utf8::is_ascii_chars(t)) by {
        assert forall|k: int| 0 <= k < t.len() implies '\0' <= #[trigger] t[k] <= '\u{7f}' by {
            assert(t[k] == '-' || crate::text::is_digit_char(t[k]));
        }
    }
    vstd::utf8::is_ascii_chars_encode_utf8(t);
    let v = encode_utf8(t);
    assert(v.len() == t.len());
    assert forall|k: int| 0 <= k < v.len() implies v[k] != 0x54u8 by {
        assert(v[k] == t[k] as u8);
        assert(t[k] == '-' || crate::text::is_digit_char(t[k]));
    }
    assert(date_part(v) == v);
    let p = pre.len() as int;
    let vmd = v.skip(p);
    assert(vmd.len() == 5);
    assert forall|k: int| 0 <= k < 2 implies vmd[k] == #[trigger] mm[k] as u8 by {
        assert(vmd[k] == v[p + k]);
        assert(t[p + k] == mm[k]);
    }
    assert forall|k: int| 0 <= k < 2 implies vmd.skip(3)[k] == #[trigger] dd[k] as u8 by {
        assert(vmd.skip(3)[k] == v[p + 3 + k]);
        assert(t[p + 3 + k] == dd[k]);
    }
    assert(vmd[2] == 0x2Du8) by {
        assert(vmd[2] == v[p + 2]);
        assert(t[p + 2] == '-');
    }
    assert(vmd.take(2) =~= vmd.take(2));
    lemma_number_of(vmd.take(2), mm);
    lemma_number_of(vmd.skip(3), dd);
    assert(month_and_day(vmd) == Some((vmd.take(2), vmd.skip(3))));
    match year {
        None => {
            assert(v[0] == 0x2Du8 && v[1] == 0x2Du8) by {
                assert(v[0] == t[0] as u8);
                assert(v[1] == t[1] as u8);
            }
            assert(year_and_rest(v, None) == Some((None::<int>, vmd)));
        },
        Some(y) => {
            let yy = zero_pad(decimal(y as nat), 4);
            assert forall|k: int| 0 <= k < 4 implies v.take(4)[k] == #[trigger] yy[k] as u8 by {
                assert(v[k] == t[k] as u8);
                assert(t[k] == yy[k]);
            }
            lemma_number_of(v.take(4), yy);
            assert(v[0] != 0x2Du8) by {
                assert(v[0] == t[0] as u8);
                assert(t[0] == yy[0]);
            }
            let rest = v.skip(4);
            assert(rest[0] == 0x2Du8) by {
                assert(rest[0] == v[4]);
                assert(v[4] == t[4] as u8);
                assert(t[4] == '-');
            }
            assert(rest.skip(1) =~= vmd);
            assert(Some(v.take(4)) != None::<Seq<u8>>);
            assert(year_and_rest(v, None) == Some((Some(y), vmd)));
        },
    }
}

/// Four digits stand for a number below 10000.
proof fn lemma_four_digits(s: Seq<char>)
    requires
        s.len() == 4,
        forall|k: int| 0 <= k < 4 ==> crate::text::is_digit_char(#[trigger] s[k]),
    ensures
        0 <= crate::text::digits_of_chars(s) <= 9999,
{
    let s3 = s.drop_last();
    let s2 = s3.drop_last();
    let s1 = s2.drop_last();
    let s0 = s1.drop_last();
    assert(s0.len() == 0);
    assert(s1.last() == s[0] && s2.last() == s[1] && s3.last() == s[2] && s.last() == s[3]);
    assert(crate::text::is_digit_char(s[0]) && crate::text::is_digit_char(s[1]));
    assert(crate::text::is_digit_char(s[2]) && crate::text::is_digit_char(s[3]));
    assert(crate::text::digits_of_chars(s0) == 0);
    assert(0 <= crate::text::digits_of_chars(s1) <= 9);
    assert(0 <= crate::text::digits_of_chars(s2) <= 99);
    assert(0 <= crate::text::digits_of_chars(s3) <= 999);
}

/// Four ASCII digits.
pub open spec fn four_digits(s: Seq<char>) -> bool {
    s.len() == 4 && forall|k: int| 0 <= k < 4 ==> crate::text::is_digit_char(#[trigger] s[k])
}

/// Reading a date written as `--`, or a four-digit year, then the month
/// and day (with `sep` between the parts), then a time part, gives the
/// month and day back, with the year the four digits stand for unless they
/// are the omitted-year marker.
/// The date part of a date made of digits and dashes, followed by a time
/// part that starts with `T` (or nothing), is the date's bytes.
proof fn lemma_date_part_of(d: Seq<char>, time: Seq<char>)
    requires
        forall|k: int| 0 <= k < d.len() ==> #[trigger] d[k] == '-' || crate::text::is_digit_char(d[k]),
        time.len() == 0 || time[0] == 'T',
    ensures
        encode_utf8(d).len() == d.len(),
        forall|k: int| 0 <= k < d.len() ==> #[trigger] encode_utf8(d)[k] == d[k] as u8,
        date_part(encode_utf8(d + time)) == encode_utf8(d),
{
    assert(vstd::utf8::is_ascii_chars(d)) by {
        assert forall|k: int| 0 <= k < d.len() implies '\0' <= #[trigger] d[k] <= '\u{7f}' by {
            assert(d[k] == '-' || crate::text::is_digit_char(d[k]));
        }
    }
    vstd::utf8::is_ascii_chars_encode_utf8(d);
    let ed = encode_utf8(d);
    crate::card::line::lemma_encode_concat(d, time);
    let v = encode_utf8(d + time);
    assert(v == ed + encode_utf8(time));
    assert forall|k: int| 0 <= k < ed.len() implies ed[k] != 0x54u8 by {
        assert(ed[k] == d[k] as u8);
        assert(d[k] == '-' || crate::text::is_digit_char(d[k]));
    }
    // The date part is the date.
    if time.len() == 0 {
        assert(encode_utf8(time) =~= Seq::<u8>::empty());
        assert(v =~= ed);
        assert(date_part(v) == v);
    } else {
        let n = ed.len() as int;
        let t1 = time.take(1);
        assert(t1 + time.skip(1) =~= time);
        crate::card::line::lemma_encode_concat(t1, time.skip(1));
        assert(vstd::utf8::is_ascii_chars(t1)) by {
            assert(t1[0] == 'T');
        }
        vstd::utf8::is_ascii_chars_encode_utf8(t1);
        assert(encode_utf8(t1)[0] == t1[0] as u8);
        assert(encode_utf8(time)[0] == 0x54u8);
        assert(v[n] == encode_utf8(time)[0]);
        assert(v[n] == 0x54u8);
        assert(forall|j: int| 0 <= j < n ==> v[j] != 0x54u8) by {
            assert forall|j: int| 0 <= j < n implies v[j] != 0x54u8 by {
                assert(v[j] == ed[j]);
            }
        }
        let c = choose|i: int| 0 <= i < v.len() && v[i] == 0x54u8 && forall|j: int| 0 <= j < i ==> v[j] != 0x54u8;
        assert(0 <= n < v.len() && v[n] == 0x54u8 && forall|j: int| 0 <= j < n ==> v[j] != 0x54u8);
        assert(c == n) by {
            if c < n {
                assert(v[c] != 0x54u8);
            } else if c > n {
                assert(v[n] != 0x54u8);
            }
        }
        assert(v.take(n) =~= ed);
        assert(date_part(v) == ed);
    }
}

#[verifier::spinoff_prover]
#[verifier::rlimit(40)]
proof fn lemma_read_written(
    dashes: bool,
    p: Seq<char>,
    sep: Seq<char>,
    month: int,
    day: int,
    time: Seq<char>,
    omitted: Option<Seq<u8>>,
)
    requires
        1 <= month <= 12,
        1 <= day <= 31,
        sep == Seq::<char>::empty() || sep == seq!['-'],
        !dashes ==> four_digits(p),
        time.len() == 0 || time[0] == 'T',
        1 <= day <= days_in(
            month,
            if dashes || omitted == Some(encode_utf8(p)) {
                None
            } else {
                Some(crate::text::digits_of_chars(p))
            },
        ),
    ensures
        ({
            let md = zero_pad(decimal(month as nat), 2) + sep + zero_pad(decimal(day as nat), 2);
            let d = if dashes {
                seq!['-', '-'] + md
            } else {
                p + sep + md
            };
            read_date_spec(encode_utf8(d + time), omitted) == Some(
                (
                    if dashes || omitted == Some(encode_utf8(p)) {
                        None
                    } else {
                        Some(crate::text::digits_of_chars(p))
                    },
                    month,
                    day,
                ),
            )
        }),
{
    let mm = zero_pad(decimal(month as nat), 2);
    let dd = zero_pad(decimal(day as nat), 2);
    lemma_padded(month as nat, 2);
    lemma_padded(day as nat, 2);
    let md = mm + sep + dd;
    let head = if dashes {
        seq!['-', '-']
    } else {
        p + sep
    };
    let d = if dashes {
        seq!['-', '-'] + md
    } else {
        p + sep + md
    };
    assert(d =~= head + md);
    // Every character of the date is a digit or a dash.
    assert forall|k: int| 0 <= k < md.len() implies #[trigger] md[k] == '-' || crate::text::is_digit_char(md[k]) by {
        if k < 2 {
            assert(md[k] == mm[k]);
        } else if k < 2 + sep.len() {
            assert(md[k] == sep[k - 2]);
        } else {
            assert(md[k] == dd[k - 2 - sep.len()]);
        }
    }
    assert forall|k: int| 0 <= k < d.len() implies #[trigger] d[k] == '-' || crate::text::is_digit_char(d[k]) by {
        if k < head.len() {
            if !dashes && k >= 4 {
                assert(d[k] == sep[k - 4]);
            }
        } else {
            assert(d[k] == md[k - head.len()]);
        }
    }
    lemma_date_part_of(d, time);
    let ed = encode_utf8(d);
    // The month and day bytes.
    let hl = head.len() as int;
    let emd = ed.skip(hl);
    assert(emd.len() == md.len());
    assert forall|k: int| 0 <= k < md.len() implies emd[k] == #[trigger] md[k] as u8 by {
        assert(emd[k] == ed[hl + k]);
        assert(d[hl + k] == md[k]);
    }
    assert forall|k: int| 0 <= k < 2 implies emd.take(2)[k] == #[trigger] mm[k] as u8 by {
        assert(md[k] == mm[k]);
    }
    let sl = sep.len() as int;
    assert forall|k: int| 0 <= k < 2 implies emd.skip(2 + sl)[k] == #[trigger] dd[k] as u8 by {
        assert(md[2 + sl + k] == dd[k]);
    }
    lemma_number_of(emd.take(2), mm);
    lemma_number_of(emd.skip(2 + sl), dd);
    if sl == 1 {
        assert(emd[2] == 0x2Du8) by {
            assert(md[2] == '-');
        }
        assert(month_and_day(emd) == Some((emd.take(2), emd.skip(3))));
    } else {
        assert(month_and_day(emd) == Some((emd.take(2), emd.skip(2))));
    }
    if dashes {
        assert(ed[0] == 0x2Du8 && ed[1] == 0x2Du8) by {
            assert(ed[0] == d[0] as u8);
            assert(ed[1] == d[1] as u8);
        }
        assert(year_and_rest(ed, omitted) == Some((None::<int>, emd)));
    } else {
        lemma_four_digits(p);
        let y4 = ed.take(4);
        assert forall|k: int| 0 <= k < 4 implies y4[k] == #[trigger] p[k] as u8 by {
            assert(ed[k] == d[k] as u8);
            assert(d[k] == p[k]);
        }
        lemma_number_of(y4, p);
        vstd::utf8::is_ascii_chars_concat(d, p, sep + md);
        vstd::utf8::is_ascii_chars_encode_utf8(p);
        assert(y4 =~= encode_utf8(p));
        assert(ed[0] != 0x2Du8) by {
            assert(ed[0] == d[0] as u8);
            assert(d[0] == p[0]);
            assert(crate::text::is_digit_char(p[0]));
        }
        let rest = ed.skip(4);
        if sl == 1 {
            assert(rest[0] == 0x2Du8) by {
                assert(rest[0] == ed[4]);
                assert(ed[4] == d[4] as u8);
                assert(d[4] == sep[0]);
            }
            assert(rest.skip(1) =~= emd);
        } else {
            assert(rest =~= emd);
            assert(rest[0] != 0x2Du8) by {
                assert(rest[0] == emd[0]);
                assert(md[0] == mm[0]);
                assert(crate::text::is_digit_char(mm[0]));
            }
        }
    }
}

/// Without its omit-year parameters, no parameter is one.
proof fn lemma_without_omit_none(ps: Seq<Seq<char>>)
    ensures
        forall|k: int| 0 <= k < without_omit(ps).len() ==> !is_omit_year(#[trigger] without_omit(ps)[k]),
    decreases ps.len(),
{
    if ps.len() > 0 {
        lemma_without_omit_none(ps.drop_last());
        let w = without_omit(ps.drop_last());
        if !is_omit_year(ps.last()) {
            assert forall|k: int| 0 <= k < without_omit(ps).len() implies !is_omit_year(
                #[trigger] without_omit(ps)[k],
            ) by {
                if k < w.len() {
                    assert(without_omit(ps)[k] == w[k]);
                }
            }
        }
    }
}

/// Parameters before the first omit-year one all stay.
proof fn lemma_without_omit_len(ps: Seq<Seq<char>>, i: int)
    requires
        0 <= i <= ps.len(),
        forall|j: int| 0 <= j < i ==> !is_omit_year(#[trigger] ps[j]),
    ensures
        without_omit(ps).len() >= i,
    decreases ps.len(),
{
    if ps.len() > i {
        lemma_without_omit_len(ps.drop_last(), i);
    } else if ps.len() > 0 {
        lemma_without_omit_len(ps.drop_last(), i - 1);
        assert(!is_omit_year(ps[ps.len() - 1]));
    }
}

/// The first omit-year parameter gives the omitted year.
proof fn lemma_first_omit_year(ps: Seq<Seq<char>>, i: int)
    requires
        first_omit(ps, i),
    ensures
        omitted_year_spec(ps) == Some(param_value(ps[i])),
        omit_index(ps) == Some(i),
{
    let c = choose|k: int| first_omit(ps, k);
    assert(c == i) by {
        if c < i {
            assert(!is_omit_year(ps[c]));
        } else if c > i {
            assert(!is_omit_year(ps[i]));
        }
    }
}

/// Parameters with no omit-year one give no omitted year.
proof fn lemma_no_omit_year(ps: Seq<Seq<char>>)
    requires
        forall|k: int| 0 <= k < ps.len() ==> !is_omit_year(#[trigger] ps[k]),
    ensures
        omitted_year_spec(ps) is None,
        omit_index(ps) is None,
{
}

/// The marker parameter Apple writes names the year 1604.
proof fn lemma_apple_marker()
    ensures
        is_omit_year("X-APPLE-OMIT-YEAR=1604"@),
        param_value("X-APPLE-OMIT-YEAR=1604"@) == "1604"@,
        four_digits("1604"@),
{
    reveal_strlit("X-APPLE-OMIT-YEAR=1604");
    reveal_strlit("X-APPLE-OMIT-YEAR");
    reveal_strlit("1604");
    let p = "X-APPLE-OMIT-YEAR=1604"@;
    assert(first_at(p, '=', 17));
    assert(p.take(17) =~= "X-APPLE-OMIT-YEAR"@);
    assert(eq_ic(p.take(17), "X-APPLE-OMIT-YEAR"@));
    let c = choose|i: int| first_at(p, '=', i);
    lemma_first_at_unique(p, '=', c, 17);
    assert(p.skip(18) =~= "1604"@);
}

/// The time part of a value is empty or starts with `T`.
proof fn lemma_time_part(v: Seq<char>)
    ensures
        0 <= time_start(v) <= v.len(),
        v.skip(time_start(v)).len() == 0 || v.skip(time_start(v))[0] == 'T',
{
}

/// Writing a valid date into a `BDAY` and reading the written value with
/// its parameters gives the date back: for a year up to 9999, and where the
/// existing parameters hold an `X-APPLE-OMIT-YEAR` marker, the first such
/// marker names a year of four digits. A date with a year is written with
/// no omit-year marker.
pub proof fn lemma_write_reads(
    year: Option<int>,
    month: int,
    day: int,
    params: Seq<Seq<char>>,
    value: Seq<char>,
    is_v4: bool,
)
    requires
        1 <= month <= 12,
        1 <= day <= days_in(month, year),
        year matches Some(y) ==> 0 <= y <= 9999,
        omit_index(params) matches Some(i) ==> four_digits(param_value(params[i])),
    ensures
        bday_date(write_spec(year, month, day, params, value, is_v4).1, write_spec(year, month, day, params, value, is_v4).0)
            == Some((year, month, day)),
        year is Some ==> forall|k: int|
            0 <= k < write_spec(year, month, day, params, value, is_v4).0.len() ==> !is_omit_year(
                #[trigger] write_spec(year, month, day, params, value, is_v4).0[k],
            ),
{
    let t = time_start(value);
    let date = value.take(t);
    let time = value.skip(t);
    lemma_time_part(value);
    let omit = omit_index(params);
    let starts_dd = date.len() >= 2 && date[0] == '-' && date[1] == '-';
    let month_day = month_day_part(date);
    let is_apple = omit is Some || (!is_v4 && !starts_dd);
    let is_basic = if date.len() == 0 {
        is_v4
    } else if year is None && !is_apple && !starts_dd {
        true
    } else {
        !(exists|k: int| 0 <= k < month_day.len() && month_day[k] == '-')
    };
    let sep = if is_basic {
        Seq::<char>::empty()
    } else {
        seq!['-']
    };
    let md = zero_pad(decimal(month as nat), 2) + sep + zero_pad(decimal(day as nat), 2);
    let kept = without_omit(params);
    lemma_without_omit_none(params);
    let (ps, v) = write_spec(year, month, day, params, value, is_v4);
    assert(days_in(month, year) <= 31);
    match year {
        Some(y) => {
            let p = zero_pad(decimal(y as nat), 4);
            lemma_padded(y as nat, 4);
            assert(ps == kept);
            lemma_no_omit_year(kept);
            assert(v =~= p + sep + md + time);
            lemma_read_written(false, p, sep, month, day, time, None);
        },
        None => {
            if is_apple {
                match omit {
                    Some(i) => {
                        let c = choose|k: int| first_omit(params, k);
                        assert(first_omit(params, c));
                        lemma_first_omit_year(params, c);
                        assert(c == i);
                        lemma_without_omit_len(params, i);
                        let ps2 = kept.insert(i, params[i]);
                        assert(ps == ps2);
                        assert(first_omit(ps2, i)) by {
                            assert(ps2[i] == params[i]);
                            assert forall|j: int| 0 <= j < i implies !is_omit_year(#[trigger] ps2[j]) by {
                                assert(ps2[j] == kept[j]);
                            }
                        }
                        lemma_first_omit_year(ps2, i);
                        let pv = param_value(params[i]);
                        assert(v =~= pv + sep + md + time);
                        lemma_read_written(false, pv, sep, month, day, time, Some(encode_utf8(pv)));
                    },
                    None => {
                        let marker = "X-APPLE-OMIT-YEAR=1604"@;
                        lemma_apple_marker();
                        let ps2 = kept.insert(0, marker);
                        assert(ps == ps2);
                        assert(first_omit(ps2, 0));
                        lemma_first_omit_year(ps2, 0);
                        assert(v =~= "1604"@ + sep + md + time);
                        lemma_read_written(false, "1604"@, sep, month, day, time, Some(encode_utf8("1604"@)));
                    },
                }
            } else {
                assert(ps == kept);
                lemma_no_omit_year(kept);
                assert(v =~= seq!['-', '-'] + md + time);
                lemma_read_written(true, Seq::empty(), sep, month, day, time, None);
            }
        },
    }
}

/// Whether a year is a leap year in the Gregorian calendar: a multiple of 4,
/// unless a multiple of 100 that is not a multiple of 400.
pub open spec fn gregorian_leap(y: int) -> bool {
    y % 4 == 0 && !(y % 100 == 0 && y % 400 != 0)
}

/// The months have the lengths of the Gregorian calendar: January, March,
/// May, July, August, October and December have 31 days; April, June,
/// September and November 30; February 29 in a leap year or when the year
/// is not known, else 28. So a year has 365 days, 366 in a leap year.
pub proof fn lemma_month_lengths(y: Option<int>)
    ensures
        days_in(1, y) == 31,
        days_in(3, y) == 31,
        days_in(5, y) == 31,
        days_in(7, y) == 31,
        days_in(8, y) == 31,
        days_in(10, y) == 31,
        days_in(12, y) == 31,
        days_in(4, y) == 30,
        days_in(6, y) == 30,
        days_in(9, y) == 30,
        days_in(11, y) == 30,
        days_in(2, y) == match y {
            Some(yy) => if gregorian_leap(yy) { 29int } else { 28int },
            None => 29int,
        },
        y matches Some(yy) ==> days_in(1, y) + days_in(2, y) + days_in(3, y) + days_in(4, y) + days_in(5, y)
            + days_in(6, y) + days_in(7, y) + days_in(8, y) + days_in(9, y) + days_in(10, y) + days_in(11, y)
            + days_in(12, y) == if gregorian_leap(yy) { 366int } else { 365int },
{
}

/// The last day of every month of every year up to 9999, written as an
/// ISO date, reads back as that date.
pub proof fn lemma_month_ends_read(y: int, m: int)
    requires
        0 <= y <= 9999,
        1 <= m <= 12,
    ensures
        read_date_spec(
            encode_utf8(iso_text(Some(y), m, days_in(m, Some(y)))),
            None,
        ) == Some((Some(y), m, days_in(m, Some(y)))),
        (m == 1 || m == 3 || m == 5 || m == 7 || m == 8 || m == 10 || m == 12) ==> read_date_spec(
            encode_utf8(iso_text(Some(y), m, 31)),
            None,
        ) == Some((Some(y), m, 31int)),
{
    lemma_month_lengths(Some(y));
    lemma_iso_roundtrip(Some(y), m, days_in(m, Some(y)));
}

/// The month names are the English ones, and no two months share a name.
pub proof fn lemma_month_names()
    ensures
        month_name(1) == "January"@,
        month_name(2) == "February"@,
        month_name(3) == "March"@,
        month_name(4) == "April"@,
        month_name(5) == "May"@,
        month_name(6) == "June"@,
        month_name(7) == "July"@,
        month_name(8) == "August"@,
        month_name(9) == "September"@,
        month_name(10) == "October"@,
        month_name(11) == "November"@,
        month_name(12) == "December"@,
        forall|i: int, j: int| 1 <= i <= 12 && 1 <= j <= 12 && i != j ==> month_name(i) != month_name(j),
{
    reveal_strlit("January");
    reveal_strlit("February");
    reveal_strlit("March");
    reveal_strlit("April");
    reveal_strlit("May");
    reveal_strlit("June");
    reveal_strlit("July");
    reveal_strlit("August");
    reveal_strlit("September");
    reveal_strlit("October");
    reveal_strlit("November");
    reveal_strlit("December");
    assert forall|i: int, j: int| 1 <= i <= 12 && 1 <= j <= 12 && i != j implies month_name(i) != month_name(j) by {
        let a = month_name(i);
        let b = month_name(j);
        if a == b {
            assert(a.len() == b.len());
            assert(a[0] == b[0]);
            assert(a[2] == b[2]);
        }
    }
}

} // verus!
