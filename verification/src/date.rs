//! Calendar dates (proleptic Gregorian) with month arithmetic.
//!
//! A `Date` is a plain year/month/day triple.  Month arithmetic clamps the
//! day to the last valid day of the target month (Jan 31 + 1 month is
//! Feb 28, or Feb 29 in leap years).  Textual dates come in two formats,
//! `YYYY-MM-DD` and `DD/MM/YYYY`, tried in that order.

use vstd::prelude::*;
use chrono::Datelike;

verus! {

/// A calendar date.  Well-formed values (see [`Date::wf`]) keep the year in
/// four digits so that every date has a canonical `YYYY-MM-DD` rendering.
#[derive(Clone, Copy, Debug, PartialEq, Eq, Structural)]
pub struct Date {
    pub year: u32,
    pub month: u32,
    pub day: u32,
}

/// Proleptic Gregorian leap-year rule.
pub open spec fn is_leap_year(y: int) -> bool {
    (y % 4 == 0 && y % 100 != 0) || y % 400 == 0
}

/// Number of days in month `m` (1-based) of year `y`.
pub open spec fn days_in_month(y: int, m: int) -> int {
    if m == 2 {
        if is_leap_year(y) {
            29
        } else {
            28
        }
    } else if m == 4 || m == 6 || m == 9 || m == 11 {
        30
    } else {
        31
    }
}

/// `true` for the Unicode digits `'0'` to `'9'`.
pub open spec fn is_digit(c: char) -> bool {
    48 <= c as u32 <= 57
}

/// Numeric value of a digit character.
pub open spec fn digit_val(c: char) -> int {
    c as u32 - 48
}

/// Shape of the `YYYY-MM-DD` format: ten characters, dashes at positions
/// 4 and 7, digits everywhere else.
pub open spec fn iso_shape(s: Seq<char>) -> bool {
    &&& s.len() == 10
    &&& s[4] == '-' && s[7] == '-'
    &&& is_digit(s[0]) && is_digit(s[1]) && is_digit(s[2]) && is_digit(s[3])
    &&& is_digit(s[5]) && is_digit(s[6]) && is_digit(s[8]) && is_digit(s[9])
}

/// The date spelled by a `YYYY-MM-DD` text (shape not yet validated).
pub open spec fn iso_date_of(s: Seq<char>) -> Date {
    Date {
        year: (digit_val(s[0]) * 1000 + digit_val(s[1]) * 100 + digit_val(s[2]) * 10 + digit_val(
            s[3],
        )) as u32,
        month: (digit_val(s[5]) * 10 + digit_val(s[6])) as u32,
        day: (digit_val(s[8]) * 10 + digit_val(s[9])) as u32,
    }
}

/// Shape of the `DD/MM/YYYY` format: ten characters, slashes at positions
/// 2 and 5, digits everywhere else.
pub open spec fn slash_shape(s: Seq<char>) -> bool {
    &&& s.len() == 10
    &&& s[2] == '/' && s[5] == '/'
    &&& is_digit(s[0]) && is_digit(s[1]) && is_digit(s[3]) && is_digit(s[4])
    &&& is_digit(s[6]) && is_digit(s[7]) && is_digit(s[8]) && is_digit(s[9])
}

/// The date spelled by a `DD/MM/YYYY` text (shape not yet validated).
pub open spec fn slash_date_of(s: Seq<char>) -> Date {
    Date {
        year: (digit_val(s[6]) * 1000 + digit_val(s[7]) * 100 + digit_val(s[8]) * 10 + digit_val(
            s[9],
        )) as u32,
        month: (digit_val(s[3]) * 10 + digit_val(s[4])) as u32,
        day: (digit_val(s[0]) * 10 + digit_val(s[1])) as u32,
    }
}

/// What a date text parses to: the ISO format is tried first, then the
/// slash format; a text of either shape still fails when the spelled date
/// is not a valid calendar date.
pub open spec fn spec_parse(s: Seq<char>) -> Option<Date> {
    if iso_shape(s) {
        if iso_date_of(s).wf() {
            Some(iso_date_of(s))
        } else {
            None
        }
    } else if slash_shape(s) {
        if slash_date_of(s).wf() {
            Some(slash_date_of(s))
        } else {
            None
        }
    } else {
        None
    }
}

impl Date {
    /// A valid calendar date with a four-digit year.
    pub open spec fn wf(self) -> bool {
        &&& 1 <= self.month <= 12
        &&& 1 <= self.day <= days_in_month(self.year as int, self.month as int)
        &&& self.year <= 9999
    }

    /// Zero-based count of whole months since year 0.
    pub open spec fn month_index(self) -> int {
        self.year * 12 + (self.month - 1)
    }

    /// First day of this date's month.
    pub open spec fn spec_month_start(self) -> Date {
        Date { year: self.year, month: self.month, day: 1 }
    }

    /// Last day of this date's month.
    pub open spec fn spec_month_end(self) -> Date {
        Date {
            year: self.year,
            month: self.month,
            day: days_in_month(self.year as int, self.month as int) as u32,
        }
    }
}

/// Total order on dates: by month, then by day within the month.
/// For well-formed dates this is the usual year/month/day order.
pub open spec fn spec_le(a: Date, b: Date) -> bool {
    a.month_index() < b.month_index() || (a.month_index() == b.month_index() && a.day <= b.day)
}

/// Strict version of [`spec_le`].
pub open spec fn spec_lt(a: Date, b: Date) -> bool {
    spec_le(a, b) && a != b
}

/// Two dates that fall in the same calendar month.
pub open spec fn same_month(a: Date, b: Date) -> bool {
    a.year == b.year && a.month == b.month
}

/// The result of adding `n` months: the month advances by `n` and the day
/// clamps to the length of the target month.
pub open spec fn spec_add_months(d: Date, n: int) -> Date {
    let t = d.month_index() + n;
    let y = t / 12;
    let m = t % 12 + 1;
    let cap = days_in_month(y, m);
    Date {
        year: y as u32,
        month: m as u32,
        day: if d.day <= cap {
            d.day as int
        } else {
            cap
        } as u32,
    }
}

/// Number of days in month `m` of year `y`.
pub fn days_in_month_of(y: u32, m: u32) -> (r: u32)
    requires
        1 <= m <= 12,
    ensures
        r == days_in_month(y as int, m as int),
        28 <= r <= 31,
{
    if m == 2 {
        if (y % 4 == 0 && y % 100 != 0) || y % 400 == 0 {
            29
        } else {
            28
        }
    } else if m == 4 || m == 6 || m == 9 || m == 11 {
        30
    } else {
        31
    }
}

pub(crate) fn is_dig(c: char) -> (r: bool)
    ensures
        r == is_digit(c),
{
    let u = c as u32;
    48 <= u && u <= 57
}

pub(crate) fn dig(c: char) -> (r: u32)
    requires
        is_digit(c),
    ensures
        r == digit_val(c),
        r <= 9,
{
    c as u32 - 48
}

impl Date {
    /// Parse a date text in `YYYY-MM-DD` or `DD/MM/YYYY` format (first
    /// match wins); `None` exactly when neither format yields a valid date.
    pub fn parse(s: &str) -> (r: Option<Date>)
        ensures
            r == spec_parse(s@),
            r matches Some(d) ==> d.wf(),
    {
        let n = s.unicode_len();
        if n != 10 {
            return None;
        }
        let c0 = s.get_char(0);
        let c1 = s.get_char(1);
        let c2 = s.get_char(2);
        let c3 = s.get_char(3);
        let c4 = s.get_char(4);
        let c5 = s.get_char(5);
        let c6 = s.get_char(6);
        let c7 = s.get_char(7);
        let c8 = s.get_char(8);
        let c9 = s.get_char(9);
        if c4 == '-' && c7 == '-' && is_dig(c0) && is_dig(c1) && is_dig(c2) && is_dig(c3) && is_dig(
            c5,
        ) && is_dig(c6) && is_dig(c8) && is_dig(c9) {
            let year = dig(c0) * 1000 + dig(c1) * 100 + dig(c2) * 10 + dig(c3);
            let month = dig(c5) * 10 + dig(c6);
            let day = dig(c8) * 10 + dig(c9);
            let d = Date { year, month, day };
            if 1 <= month && month <= 12 && 1 <= day && day <= days_in_month_of(year, month) {
                Some(d)
            } else {
                None
            }
        } else if c2 == '/' && c5 == '/' && is_dig(c0) && is_dig(c1) && is_dig(c3) && is_dig(c4)
            && is_dig(c6) && is_dig(c7) && is_dig(c8) && is_dig(c9) {
            let year = dig(c6) * 1000 + dig(c7) * 100 + dig(c8) * 10 + dig(c9);
            let month = dig(c3) * 10 + dig(c4);
            let day = dig(c0) * 10 + dig(c1);
            let d = Date { year, month, day };
            if 1 <= month && month <= 12 && 1 <= day && day <= days_in_month_of(year, month) {
                Some(d)
            } else {
                None
            }
        } else {
            None
        }
    }

    /// Add `n` months, clamping the day to the length of the target month.
    pub fn add_months(&self, months: u32) -> (r: Date)
        requires
            self.wf(),
            self.month_index() + months <= 119999,
        ensures
            r == spec_add_months(*self, months as int),
            r.wf(),
    {
        let t: u32 = self.year * 12 + (self.month - 1) + months;
        let y: u32 = t / 12;
        let m: u32 = t % 12 + 1;
        let cap: u32 = days_in_month_of(y, m);
        let day: u32 = if self.day <= cap {
            self.day
        } else {
            cap
        };
        Date { year: y, month: m, day }
    }

    /// The dates of `months` consecutive months starting here: entry `i`
    /// is this date plus `i` months.
    pub fn repeat_by_month(&self, months: u32) -> (r: Vec<Date>)
        requires
            self.wf(),
            self.month_index() + months <= 120000,
        ensures
            r@.len() == months,
            forall|i: int| 0 <= i < months ==> r@[i] == spec_add_months(*self, i),
    {
        let mut out: Vec<Date> = Vec::new();
        let mut i: u32 = 0;
        while i < months
            invariant
                self.wf(),
                self.month_index() + months <= 120000,
                i <= months,
                out@.len() == i,
                forall|j: int| 0 <= j < i ==> out@[j] == spec_add_months(*self, j),
            decreases months - i,
        {
            out.push(self.add_months(i));
            i = i + 1;
        }
        out
    }

    /// Truncate to the first day of this date's month.
    pub fn modulo(&self) -> (r: Date)
        requires
            self.wf(),
        ensures
            r == self.spec_month_start(),
            r.wf(),
    {
        Date { year: self.year, month: self.month, day: 1 }
    }

    /// The first and last day of this date's month.
    pub fn to_month_interval(&self) -> (r: (Date, Date))
        requires
            self.wf(),
        ensures
            r.0 == self.spec_month_start(),
            r.1 == self.spec_month_end(),
            r.0.wf(),
            r.1.wf(),
    {
        let start = Date { year: self.year, month: self.month, day: 1 };
        let end = Date {
            year: self.year,
            month: self.month,
            day: days_in_month_of(self.year, self.month),
        };
        (start, end)
    }

    /// `self` on or before `other` in calendar order.
    pub fn le(&self, other: &Date) -> (r: bool)
        requires
            self.wf(),
            other.wf(),
        ensures
            r == spec_le(*self, *other),
    {
        let a: u32 = self.year * 12 + (self.month - 1);
        let b: u32 = other.year * 12 + (other.month - 1);
        a < b || (a == b && self.day <= other.day)
    }
}

/// The digit character for a value between 0 and 9.
pub open spec fn digit_char(v: int) -> char {
    if v == 0 {
        '0'
    } else if v == 1 {
        '1'
    } else if v == 2 {
        '2'
    } else if v == 3 {
        '3'
    } else if v == 4 {
        '4'
    } else if v == 5 {
        '5'
    } else if v == 6 {
        '6'
    } else if v == 7 {
        '7'
    } else if v == 8 {
        '8'
    } else {
        '9'
    }
}

/// The canonical `YYYY-MM-DD` rendering of a date.
pub open spec fn spec_format(d: Date) -> Seq<char> {
    seq![
        digit_char(d.year as int / 1000),
        digit_char(d.year as int / 100 % 10),
        digit_char(d.year as int / 10 % 10),
        digit_char(d.year as int % 10),
        '-',
        digit_char(d.month as int / 10),
        digit_char(d.month as int % 10),
        '-',
        digit_char(d.day as int / 10),
        digit_char(d.day as int % 10),
    ]
}

fn digit_str(v: u32) -> (r: &'static str)
    requires
        v <= 9,
    ensures
        r@.len() == 1,
        r@[0] == digit_char(v as int),
{
    proof {
        reveal_strlit("0");
        reveal_strlit("1");
        reveal_strlit("2");
        reveal_strlit("3");
        reveal_strlit("4");
        reveal_strlit("5");
        reveal_strlit("6");
        reveal_strlit("7");
        reveal_strlit("8");
        reveal_strlit("9");
    }
    match v {
        0 => "0",
        1 => "1",
        2 => "2",
        3 => "3",
        4 => "4",
        5 => "5",
        6 => "6",
        7 => "7",
        8 => "8",
        _ => "9",
    }
}

fn dash_str() -> (r: &'static str)
    ensures
        r@.len() == 1,
        r@[0] == '-',
{
    proof {
        reveal_strlit("-");
    }
    "-"
}

impl Date {
    /// Render as the canonical `YYYY-MM-DD` text.
    pub fn format(&self) -> (r: String)
        requires
            self.wf(),
        ensures
            r@ == spec_format(*self),
    {
        let mut out = String::new();
        out.append(digit_str(self.year / 1000));
        out.append(digit_str(self.year / 100 % 10));
        out.append(digit_str(self.year / 10 % 10));
        out.append(digit_str(self.year % 10));
        out.append(dash_str());
        out.append(digit_str(self.month / 10));
        out.append(digit_str(self.month % 10));
        out.append(dash_str());
        out.append(digit_str(self.day / 10));
        out.append(digit_str(self.day % 10));
        proof {
            assert(out@ =~= spec_format(*self));
        }
        out
    }
}

/// Relies on `std::time::SystemTime::now` with `duration_since` to read
/// the clock, and on chrono's `DateTime::from_timestamp` with the
/// `Datelike` accessors to turn it into a civil date.  Every clock state
/// yields a value — `None` for a clock before 1970 or beyond chrono's
/// range — and nothing is assumed of the returned triple; [`today`]
/// validates it.
#[verifier::external_body]
fn now_ymd() -> (r: Option<(i32, u32, u32)>) {
    let since_epoch = match std::time::SystemTime::now().duration_since(std::time::UNIX_EPOCH) {
        Ok(d) => d,
        Err(_) => {
            return None;
        },
    };
    match chrono::DateTime::from_timestamp(since_epoch.as_secs() as i64, 0) {
        Some(now) => Some((now.year(), now.month(), now.day())),
        None => None,
    }
}

/// Today's civil date, forced into the representable range: an unreadable
/// clock, or one outside the years 0 to 9999 or reporting an invalid
/// month or day, falls back to the nearest well-formed date.
pub(crate) fn today() -> (d: Date)
    ensures
        d.wf(),
{
    let (y, m, dd) = match now_ymd() {
        Some(t) => t,
        None => (1970, 1, 1),
    };
    let year: u32 = if y < 0 {
        0
    } else if y > 9999 {
        9999
    } else {
        y as u32
    };
    let month: u32 = if 1 <= m && m <= 12 {
        m
    } else {
        1
    };
    let cap = days_in_month_of(year, month);
    let day: u32 = if 1 <= dd && dd <= cap {
        dd
    } else {
        1
    };
    Date { year, month, day }
}

/// Adding `n` months advances the month index by exactly `n` and yields a
/// well-formed date.
pub proof fn lemma_add_months_index(d: Date, n: int)
    requires
        d.wf(),
        0 <= n,
        d.month_index() + n <= 119999,
    ensures
        spec_add_months(d, n).month_index() == d.month_index() + n,
        spec_add_months(d, n).wf(),
{
    let t = d.month_index() + n;
    assert(12 * (t / 12) + t % 12 == t);
}

/// For well-formed dates, falling in the same calendar month is the same
/// as having equal month indexes.
pub proof fn lemma_same_month_iff_month_index(a: Date, b: Date)
    requires
        a.wf(),
        b.wf(),
    ensures
        same_month(a, b) <==> a.month_index() == b.month_index(),
{
}

/// A date lies between the first and last day of `anchor`'s month exactly
/// when it falls in that calendar month.
pub proof fn lemma_month_interval_membership(d: Date, anchor: Date)
    requires
        d.wf(),
        anchor.wf(),
    ensures
        (spec_le(anchor.spec_month_start(), d) && spec_le(d, anchor.spec_month_end())) <==>
            same_month(d, anchor),
{
    if same_month(d, anchor) {
        assert(anchor.spec_month_start().month_index() == d.month_index());
    } else {
        assert(d.month_index() != anchor.month_index());
    }
}

} // verus!
