//! Calendar dates with the canonical `YYYY-MM-DD` text form, day arithmetic
//! and total ordering.
use vstd::prelude::*;
use crate::commons::FormatError;
use crate::text::all_digits;
use crate::text::chars_of_str;
use crate::text::dec_str;
use crate::text::digits_range_val;
use crate::text::digits_val;
use crate::text::lemma_digits_val_upper;
use crate::text::pow10;
use crate::text::push_dec;
use crate::text::string_from_chars;

verus! {

/// A proleptic Gregorian calendar date between years 0 and 9999, with no
/// time-of-day component and no time zone.
#[derive(Clone, Copy, PartialEq, Eq, Structural, Debug)]
pub struct Date {
    pub year: i32,
    pub month: u8,
    pub day: u8,
}

pub open spec fn spec_is_leap_year(y: int) -> bool {
    y % 4 == 0 && (y % 100 != 0 || y % 400 == 0)
}

pub open spec fn spec_days_in_month(y: int, m: int) -> int {
    if m == 2 {
        if spec_is_leap_year(y) {
            29
        } else {
            28
        }
    } else if m == 4 || m == 6 || m == 9 || m == 11 {
        30
    } else {
        31
    }
}

pub open spec fn spec_days_in_year(y: int) -> int {
    if spec_is_leap_year(y) {
        366
    } else {
        365
    }
}

/// Days of year `y` that lie before month `m`.
pub open spec fn days_before_month(y: int, m: int) -> int
    decreases m,
{
    if m <= 1 {
        0
    } else {
        days_before_month(y, m - 1) + spec_days_in_month(y, m - 1)
    }
}

/// Days in years 0 through `y - 1`.
pub open spec fn days_before_year(y: int) -> int
    decreases y,
{
    if y <= 0 {
        0
    } else {
        days_before_year(y - 1) + spec_days_in_year(y - 1)
    }
}

proof fn lemma_days_before_month_full(y: int)
    ensures
        days_before_month(y, 13) == spec_days_in_year(y),
{
    reveal_with_fuel(days_before_month, 14);
}

proof fn lemma_dbm_nonneg(y: int, m: int)
    requires
        m >= 1,
    ensures
        0 <= days_before_month(y, m),
    decreases m,
{
    if m > 1 {
        lemma_dbm_nonneg(y, m - 1);
    }
}

proof fn lemma_days_before_month_bounds(y: int, m: int)
    requires
        1 <= m <= 13,
    ensures
        0 <= days_before_month(y, m),
        days_before_month(y, m) + 28 * (13 - m) <= spec_days_in_year(y),
    decreases 13 - m,
{
    lemma_dbm_nonneg(y, m);
    if m == 13 {
        lemma_days_before_month_full(y);
    } else {
        lemma_days_before_month_bounds(y, m + 1);
    }
}

proof fn lemma_days_before_year_mono(y1: int, y2: int)
    requires
        0 <= y1 <= y2,
    ensures
        days_before_year(y1) <= days_before_year(y2),
        days_before_year(y1) + 365 * (y2 - y1) <= days_before_year(y2),
    decreases y2 - y1,
{
    if y1 < y2 {
        lemma_days_before_year_mono(y1, y2 - 1);
    }
}

impl Date {
    pub open spec fn spec_year(self) -> int {
        self.year as int
    }

    pub open spec fn spec_month(self) -> int {
        self.month as int
    }

    pub open spec fn spec_day(self) -> int {
        self.day as int
    }

    /// A valid calendar date within the supported year range.
    pub open spec fn wf(self) -> bool {
        &&& 0 <= self.spec_year() <= 9999
        &&& 1 <= self.spec_month() <= 12
        &&& 1 <= self.spec_day() <= spec_days_in_month(self.spec_year(), self.spec_month())
    }

    /// The date's rank in the calendar: days between year 0, January 1 and
    /// this date.
    pub open spec fn day_number(self) -> int {
        days_before_year(self.spec_year()) + days_before_month(self.spec_year(), self.spec_month())
            + self.spec_day() - 1
    }

    pub open spec fn spec_is_max(self) -> bool {
        self.spec_year() == 9999 && self.spec_month() == 12 && self.spec_day() == 31
    }

    pub open spec fn spec_is_min(self) -> bool {
        self.spec_year() == 0 && self.spec_month() == 1 && self.spec_day() == 1
    }

    /// Lexicographic order on (year, month, day).
    pub open spec fn spec_le(self, other: Date) -> bool {
        if self.spec_year() != other.spec_year() {
            self.spec_year() < other.spec_year()
        } else if self.spec_month() != other.spec_month() {
            self.spec_month() < other.spec_month()
        } else {
            self.spec_day() <= other.spec_day()
        }
    }

    /// Builds a date after checking that it is a valid calendar date.
    pub fn from_ymd(year: i32, month: u8, day: u8) -> (r: Option<Date>)
        ensures
            match r {
                Some(d) => d.wf() && d.spec_year() == year as int && d.spec_month() == month as int
                    && d.spec_day() == day as int,
                None => !(Date { year, month, day }).wf(),
            },
    {
        if 0 <= year && year <= 9999 && 1 <= month && month <= 12 && 1 <= day && day
            <= exec_days_in_month(year, month) {
            Some(Date { year, month, day })
        } else {
            None
        }
    }

    pub fn year(&self) -> (r: i32)
        ensures
            r as int == self.spec_year(),
    {
        self.year
    }

    pub fn month(&self) -> (r: u8)
        ensures
            r as int == self.spec_month(),
    {
        self.month
    }

    pub fn day(&self) -> (r: u8)
        ensures
            r as int == self.spec_day(),
    {
        self.day
    }

    /// The next calendar day; `None` only at the last supported date.
    pub fn next(&self) -> (r: Option<Date>)
        requires
            self.wf(),
        ensures
            match r {
                Some(d) => d == spec_next_date(*self) && d.wf() && d.day_number()
                    == self.day_number() + 1,
                None => self.spec_is_max(),
            },
    {
        let dim = exec_days_in_month(self.year, self.month);
        if self.day < dim {
            Some(Date { year: self.year, month: self.month, day: self.day + 1 })
        } else if self.month < 12 {
            Some(Date { year: self.year, month: self.month + 1, day: 1 })
        } else if self.year < 9999 {
            proof {
                lemma_days_before_month_full(self.spec_year());
            }
            Some(Date { year: self.year + 1, month: 1, day: 1 })
        } else {
            None
        }
    }

    /// The previous calendar day; `None` only at the first supported date.
    pub fn previous(&self) -> (r: Option<Date>)
        requires
            self.wf(),
        ensures
            match r {
                Some(d) => d.wf() && d.day_number() == self.day_number() - 1,
                None => self.spec_is_min(),
            },
    {
        if self.day > 1 {
            Some(Date { year: self.year, month: self.month, day: self.day - 1 })
        } else if self.month > 1 {
            let dim = exec_days_in_month(self.year, self.month - 1);
            Some(Date { year: self.year, month: self.month - 1, day: dim })
        } else if self.year > 0 {
            proof {
                lemma_days_before_month_full(self.spec_year() - 1);
            }
            let dim = exec_days_in_month(self.year - 1, 12);
            Some(Date { year: self.year - 1, month: 12, day: dim })
        } else {
            None
        }
    }

    /// Total order test, agreeing with `day_number`.
    pub fn le(&self, other: &Date) -> (r: bool)
        requires
            self.wf(),
            other.wf(),
        ensures
            r == self.spec_le(*other),
            r == (self.day_number() <= other.day_number()),
    {
        proof {
            lemma_le_day_number(*self, *other);
        }
        if self.year != other.year {
            self.year < other.year
        } else if self.month != other.month {
            self.month < other.month
        } else {
            self.day <= other.day
        }
    }

    /// Parses the canonical `YYYY-MM-DD` form; anything else is rejected.
    pub fn parse(text: &str) -> (r: Result<Date, FormatError>)
        ensures
            match r {
                Ok(d) => spec_parse_date(text@) == Some(d),
                Err(_) => spec_parse_date(text@) is None,
            },
    {
        let v = chars_of_str(text);
        if v.len() != 10 {
            return Err(FormatError::Date);
        }
        if !(v[4] == '-' && v[7] == '-') {
            return Err(FormatError::Date);
        }
        let y = match digits_range_val(&v, 0, 4) {
            Some(x) => x,
            None => {
                return Err(FormatError::Date);
            },
        };
        let m = match digits_range_val(&v, 5, 7) {
            Some(x) => x,
            None => {
                return Err(FormatError::Date);
            },
        };
        let d = match digits_range_val(&v, 8, 10) {
            Some(x) => x,
            None => {
                return Err(FormatError::Date);
            },
        };
        proof {
            lemma_digits_val_upper(v@.subrange(0, 4));
            lemma_digits_val_upper(v@.subrange(5, 7));
            lemma_digits_val_upper(v@.subrange(8, 10));
            reveal_with_fuel(pow10, 5);
        }
        if 1 <= m && m <= 12 && 1 <= d && d <= (exec_days_in_month(y as i32, m as u8) as u32) {
            Ok(Date { year: y as i32, month: m as u8, day: d as u8 })
        } else {
            Err(FormatError::Date)
        }
    }

    /// Renders the date in the canonical `YYYY-MM-DD` form.
    pub fn render(&self) -> (r: String)
        requires
            self.wf(),
        ensures
            r@ == spec_render_date(*self),
    {
        let mut out: Vec<char> = Vec::new();
        push_pad4(&mut out, self.year as u32);
        out.push('-');
        push_pad2(&mut out, self.month as u32);
        out.push('-');
        push_pad2(&mut out, self.day as u32);
        assert(out@ =~= spec_render_date(*self));
        string_from_chars(&out)
    }
}

pub fn exec_is_leap_year(y: i32) -> (r: bool)
    ensures
        r == spec_is_leap_year(y as int),
{
    y % 4 == 0 && (y % 100 != 0 || y % 400 == 0)
}

pub fn exec_days_in_month(y: i32, m: u8) -> (r: u8)
    ensures
        r as int == spec_days_in_month(y as int, m as int),
{
    if m == 2 {
        if exec_is_leap_year(y) {
            29
        } else {
            28
        }
    } else if m == 4 || m == 6 || m == 9 || m == 11 {
        30
    } else {
        31
    }
}

/// A strictly earlier date in lexicographic order has a strictly smaller day
/// number.
proof fn lemma_lt_day_number(a: Date, b: Date)
    requires
        a.wf(),
        b.wf(),
        a.spec_le(b),
        a != b,
    ensures
        a.day_number() < b.day_number(),
{
    lemma_days_before_month_bounds(a.spec_year(), a.spec_month());
    lemma_days_before_month_bounds(b.spec_year(), b.spec_month());
    lemma_days_before_month_bounds(a.spec_year(), a.spec_month() + 1);
    if a.spec_year() < b.spec_year() {
        lemma_days_before_year_mono(a.spec_year() + 1, b.spec_year());
        assert(days_before_year(a.spec_year() + 1) == days_before_year(a.spec_year())
            + spec_days_in_year(a.spec_year()));
        assert(a.day_number() < days_before_year(a.spec_year()) + spec_days_in_year(a.spec_year()));
    } else if a.spec_month() < b.spec_month() {
        lemma_dbm_step_mono(a.spec_year(), a.spec_month() + 1, b.spec_month());
    }
}

proof fn lemma_dbm_step_mono(y: int, m1: int, m2: int)
    requires
        1 <= m1 <= m2 <= 13,
    ensures
        days_before_month(y, m1) <= days_before_month(y, m2),
    decreases m2 - m1,
{
    if m1 < m2 {
        lemma_dbm_step_mono(y, m1 + 1, m2);
    }
}

/// Lexicographic order on well-formed dates agrees with day numbers.
pub proof fn lemma_le_day_number(a: Date, b: Date)
    requires
        a.wf(),
        b.wf(),
    ensures
        a.spec_le(b) <==> a.day_number() <= b.day_number(),
        a == b <==> a.day_number() == b.day_number(),
{
    if a != b {
        if a.spec_le(b) {
            lemma_lt_day_number(a, b);
        } else {
            lemma_lt_day_number(b, a);
        }
    }
}

/// The date denoted by canonical `YYYY-MM-DD` text: exactly ten characters,
/// four-digit year, two-digit month and day, dashes between, and the values
/// naming a real calendar date.
pub open spec fn spec_parse_date(s: Seq<char>) -> Option<Date> {
    if s.len() == 10 && s[4] == '-' && s[7] == '-' && all_digits(s.subrange(0, 4)) && all_digits(
        s.subrange(5, 7),
    ) && all_digits(s.subrange(8, 10)) {
        let y = digits_val(s.subrange(0, 4));
        let m = digits_val(s.subrange(5, 7));
        let d = digits_val(s.subrange(8, 10));
        if 1 <= m <= 12 && 1 <= d <= spec_days_in_month(y, m) {
            Some(Date { year: y as i32, month: m as u8, day: d as u8 })
        } else {
            None
        }
    } else {
        None
    }
}

/// `n` zero-padded to two digits.
pub open spec fn spec_pad_2(n: nat) -> Seq<char> {
    if n < 10 {
        seq!['0'] + dec_str(n)
    } else {
        dec_str(n)
    }
}

/// `n` zero-padded to four digits.
pub open spec fn spec_pad_4(n: nat) -> Seq<char> {
    if n < 10 {
        seq!['0', '0', '0'] + dec_str(n)
    } else if n < 100 {
        seq!['0', '0'] + dec_str(n)
    } else if n < 1000 {
        seq!['0'] + dec_str(n)
    } else {
        dec_str(n)
    }
}

/// The canonical `YYYY-MM-DD` rendering.
pub open spec fn spec_render_date(d: Date) -> Seq<char> {
    spec_pad_4(d.spec_year() as nat) + seq!['-'] + spec_pad_2(d.spec_month() as nat) + seq!['-']
        + spec_pad_2(d.spec_day() as nat)
}

pub(crate) fn push_pad2(out: &mut Vec<char>, n: u32)
    ensures
        final(out)@ == old(out)@ + spec_pad_2(n as nat),
{
    if n < 10 {
        out.push('0');
    }
    push_dec(out, n as u128);
    assert(out@ =~= old(out)@ + spec_pad_2(n as nat));
}

fn push_pad4(out: &mut Vec<char>, n: u32)
    ensures
        final(out)@ == old(out)@ + spec_pad_4(n as nat),
{
    if n < 10 {
        out.push('0');
        out.push('0');
        out.push('0');
    } else if n < 100 {
        out.push('0');
        out.push('0');
    } else if n < 1000 {
        out.push('0');
    }
    push_dec(out, n as u128);
    assert(out@ =~= old(out)@ + spec_pad_4(n as nat));
}

/// All dates from `start` through `end`, ascending; empty when `end` is
/// before `start`.
pub open spec fn spec_date_range(start: Date, end: Date) -> Seq<Date>
    decreases end.day_number() - start.day_number() + 1,
    via spec_date_range_decreases
{
    if !start.wf() || !end.wf() || end.day_number() < start.day_number() {
        Seq::empty()
    } else {
        seq![start] + spec_date_range(spec_next_date(start), end)
    }
}

#[via_fn]
proof fn spec_date_range_decreases(start: Date, end: Date) {
    if start.wf() && end.wf() && end.day_number() >= start.day_number() {
        if start.spec_is_max() {
            lemma_days_before_month_full(start.spec_year());
        } else {
            lemma_next_matches(start);
        }
    }
}

/// The calendar successor, as the `next` method computes it.
pub open spec fn spec_next_date(d: Date) -> Date {
    if d.spec_day() < spec_days_in_month(d.spec_year(), d.spec_month()) {
        Date { year: d.year, month: d.month, day: (d.day + 1) as u8 }
    } else if d.spec_month() < 12 {
        Date { year: d.year, month: (d.month + 1) as u8, day: 1 }
    } else {
        Date { year: (d.year + 1) as i32, month: 1, day: 1 }
    }
}

/// Every date from `start` through `end`, ascending and inclusive.
pub fn date_range(start: &Date, end: &Date) -> (r: Vec<Date>)
    requires
        start.wf(),
        end.wf(),
    ensures
        r@ == spec_date_range(*start, *end),
{
    let mut out: Vec<Date> = Vec::new();
    if !start.le(end) {
        return out;
    }
    let mut cur: Date = *start;
    loop
        invariant
            cur.wf(),
            cur.day_number() <= end.day_number(),
            spec_date_range(*start, *end) == out@ + spec_date_range(cur, *end),
        decreases end.day_number() - cur.day_number(),
    {
        proof {
            lemma_day_number_bounded(cur);
            lemma_day_number_bounded(*end);
        }
        out.push(cur);
        if cur.year == end.year && cur.month == end.month && cur.day == end.day {
            proof {
                if !cur.spec_is_max() {
                    lemma_next_matches(cur);
                }
                assert(spec_date_range(spec_next_date(cur), *end) == Seq::<Date>::empty());
                assert(spec_date_range(cur, *end) =~= seq![cur]);
                assert(out@ =~= spec_date_range(*start, *end));
            }
            return out;
        }
        proof {
            lemma_le_day_number(cur, *end);
            assert(cur.day_number() < end.day_number());
            if cur.spec_is_max() {
                lemma_le_day_number(*end, cur);
                assert(end.spec_le(cur));
                assert(false);
            }
        }
        let n = match cur.next() {
            Some(d) => d,
            None => {
                proof {
                    assert(false);
                }
                cur
            },
        };
        assert(spec_date_range(cur, *end) == seq![cur] + spec_date_range(n, *end));
        cur = n;
    }
}

/// The day number of a well-formed date is within the supported span.
proof fn lemma_day_number_bounded(d: Date)
    requires
        d.wf(),
    ensures
        0 <= d.day_number() < 3700000,
{
    lemma_days_before_month_bounds(d.spec_year(), d.spec_month());
    lemma_days_before_year_mono(0, d.spec_year());
    lemma_days_before_year_bounded(d.spec_year());
}

proof fn lemma_days_before_year_bounded(y: int)
    requires
        0 <= y <= 9999,
    ensures
        days_before_year(y) <= 366 * y,
    decreases y,
{
    if y > 0 {
        lemma_days_before_year_bounded(y - 1);
    }
}

/// The `next` method computes `spec_next_date`.
proof fn lemma_next_matches(d: Date)
    requires
        d.wf(),
        !d.spec_is_max(),
    ensures
        spec_next_date(d).wf(),
        spec_next_date(d).day_number() == d.day_number() + 1,
{
    if !(d.spec_day() < spec_days_in_month(d.spec_year(), d.spec_month())) && !(d.spec_month()
        < 12) {
        lemma_days_before_month_full(d.spec_year());
    }
}

} // verus!
