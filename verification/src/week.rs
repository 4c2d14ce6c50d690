//! Sprint tag derivation: the canonical tag text for a year and ISO week,
//! and the Monday-through-Sunday date range that week spans.
use vstd::prelude::*;
use crate::date::push_pad2;
use crate::date::spec_pad_2;
use crate::date::Date;
use crate::text::string_from_chars;

verus! {

/// The canonical sprint tag: `Y`, the year's last two digits, `W`, and the
/// two-digit week number.
pub open spec fn spec_sprint_tag(year: int, week: int) -> Seq<char> {
    seq!['Y'] + spec_pad_2((year % 100) as nat) + seq!['W'] + spec_pad_2(week as nat)
}

/// Renders the canonical sprint tag for a year and ISO week.
pub fn sprint_tag(year: i32, week: u8) -> (r: String)
    requires
        year >= 0,
    ensures
        r@ == spec_sprint_tag(year as int, week as int),
{
    let mut out: Vec<char> = Vec::new();
    out.push('Y');
    push_pad2(&mut out, (year % 100) as u32);
    out.push('W');
    push_pad2(&mut out, week as u32);
    assert(out@ =~= spec_sprint_tag(year as int, week as int));
    string_from_chars(&out)
}

/// The (year, month, day) of the given weekday in the given ISO week;
/// depends on the arguments alone.
pub uninterp spec fn iso_week_date_parts(year: i32, week: u8, sunday: bool) -> Option<
    (i32, u8, u8),
>;

/// Relies on time::Date::from_iso_week_date: the calendar date of the given
/// weekday in the given ISO week, or an error when the week number is out of
/// range for that year. A time::Date is always a valid calendar date within
/// years -9999 through 9999, so its month lies in 1 through 12 and its day
/// in 1 through 31.
#[verifier::external_body]
fn iso_week_date(year: i32, week: u8, sunday: bool) -> (r: Option<(i32, u8, u8)>)
    ensures
        r == iso_week_date_parts(year, week, sunday),
        r matches Some(p) ==> -9999 <= p.0 <= 9999 && 1 <= p.1 <= 12 && 1 <= p.2 <= 31,
{
    let weekday = if sunday {
        time::Weekday::Sunday
    } else {
        time::Weekday::Monday
    };
    match time::Date::from_iso_week_date(year, week, weekday) {
        Ok(d) => Some((d.year(), d.month() as u8, d.day())),
        Err(_) => None,
    }
}

/// The date pair a week's raw endpoints denote: both endpoints must be
/// present and name calendar dates the library supports.
pub open spec fn spec_dates_from_parts(a: Option<(i32, u8, u8)>, b: Option<(i32, u8, u8)>)
    -> Option<(Date, Date)> {
    match (a, b) {
        (Some(m), Some(s)) => {
            let first = Date { year: m.0, month: m.1, day: m.2 };
            let last = Date { year: s.0, month: s.1, day: s.2 };
            if first.wf() && last.wf() {
                Some((first, last))
            } else {
                None
            }
        },
        _ => None,
    }
}

/// Builds the week's date pair from its raw endpoints, validating each as a
/// calendar date.
pub fn dates_from_parts(a: Option<(i32, u8, u8)>, b: Option<(i32, u8, u8)>) -> (r: Option<
    (Date, Date),
>)
    ensures
        r == spec_dates_from_parts(a, b),
{
    match (a, b) {
        (Some(m), Some(s)) => {
            let first = match Date::from_ymd(m.0, m.1, m.2) {
                Some(d) => d,
                None => {
                    return None;
                },
            };
            let last = match Date::from_ymd(s.0, s.1, s.2) {
                Some(d) => d,
                None => {
                    return None;
                },
            };
            Some((first, last))
        },
        _ => None,
    }
}

/// The Monday and Sunday of the given ISO week, when the week exists and
/// both days land on supported calendar dates.
pub fn sprint_date_range(year: i32, week: u8) -> (r: Option<(Date, Date)>)
    ensures
        r == spec_dates_from_parts(
            iso_week_date_parts(year, week, false),
            iso_week_date_parts(year, week, true),
        ),
{
    let monday = iso_week_date(year, week, false);
    let sunday = iso_week_date(year, week, true);
    dates_from_parts(monday, sunday)
}

} // verus!
