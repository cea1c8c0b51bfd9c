//! Calendar dates: validity, display, and parsing of absolute and relative
//! date expressions against a given "today".
use vstd::prelude::*;

use crate::error::{CodeComponent, Error};
use crate::text::{
    all_digits, append, append_str, chars_of, ends_with, eq_chars, int_chars, int_of, int_text,
    is_digit, is_prefix, is_suffix, lower, lower_of, nat_chars, nat_text, parse_int, slice_of,
    split, split_of, starts_with, string_from_chars, views,
};
use chrono::Datelike;

verus! {

/// A calendar date, with 1-based day and month.
#[derive(Debug, Clone, Copy, PartialEq, Eq, Structural)]
pub struct Date {
    pub day: usize,
    pub month: usize,
    pub year: u16,
}

/// Gregorian leap years: divisible by 4, not by 100 unless by 400.
pub open spec fn is_leap(year: int) -> bool {
    year % 4 == 0 && (year % 100 != 0 || year % 400 == 0)
}

pub open spec fn days_in_month(month: int, year: int) -> int {
    if month == 2 {
        if is_leap(year) {
            29
        } else {
            28
        }
    } else if month == 4 || month == 6 || month == 9 || month == 11 {
        30
    } else {
        31
    }
}

pub open spec fn valid_day(month: int, year: int, day: int) -> bool {
    1 <= month <= 12 && 1 <= day <= days_in_month(month, year)
}

pub open spec fn short_month(month: int) -> Seq<char> {
    if month == 1 {
        "Jan"@
    } else if month == 2 {
        "Feb"@
    } else if month == 3 {
        "Mar"@
    } else if month == 4 {
        "Apr"@
    } else if month == 5 {
        "May"@
    } else if month == 6 {
        "Jun"@
    } else if month == 7 {
        "Jul"@
    } else if month == 8 {
        "Aug"@
    } else if month == 9 {
        "Sep"@
    } else if month == 10 {
        "Oct"@
    } else if month == 11 {
        "Nov"@
    } else {
        "Dec"@
    }
}

/// The date from year, month and day numbers, where the year fits the date's year field.
pub open spec fn date_of(year: int, month: int, day: int) -> Option<Date> {
    if 0 <= year <= u16::MAX && valid_day(month, year, day) {
        Some(Date { day: day as usize, month: month as usize, year: year as u16 })
    } else {
        None
    }
}

/// The date `days` days after the given one, where the calendar reaches it.
pub uninterp spec fn days_later(year: int, month: int, day: int, days: int) -> Option<(int, int, int)>;

/// The date `months` months after the given one, the day kept or cut to the month's last.
pub uninterp spec fn months_later(year: int, month: int, day: int, months: int) -> Option<
    (int, int, int),
>;

/// Day of the week of a date, Monday being 0.
pub uninterp spec fn weekday_index(year: int, month: int, day: int) -> int;

/// Whole days from the second date to the first.
pub uninterp spec fn day_distance(y1: int, m1: int, d1: int, y2: int, m2: int, d2: int) -> int;

/// Relies on `chrono::NaiveDate::checked_add_days`, from the date as `NaiveDate::from_ymd_opt`
/// makes it: `None` where the result leaves chrono's range, else a valid date.
#[verifier::external_body]
fn add_days(d: &Date, days: u64) -> (r: Option<(i32, u32, u32)>)
    requires
        d.wf(),
    ensures
        match r {
            Some(t) => days_later(d.year as int, d.month as int, d.day as int, days as int)
                == Some((t.0 as int, t.1 as int, t.2 as int)) && valid_day(
                t.1 as int,
                t.0 as int,
                t.2 as int,
            ),
            None => days_later(d.year as int, d.month as int, d.day as int, days as int) is None,
        },
{
    match chrono::NaiveDate::from_ymd_opt(d.year as i32, d.month as u32, d.day as u32) {
        Some(n) => match n.checked_add_days(chrono::Days::new(days)) {
            Some(x) => Some((x.year(), x.month(), x.day())),
            None => None,
        },
        None => None,
    }
}

/// Relies on `chrono::NaiveDate::checked_add_months`, from the date as
/// `NaiveDate::from_ymd_opt` makes it: `None` where the result leaves chrono's range.
#[verifier::external_body]
fn add_months(d: &Date, months: u32) -> (r: Option<(i32, u32, u32)>)
    requires
        d.wf(),
    ensures
        match r {
            Some(t) => months_later(d.year as int, d.month as int, d.day as int, months as int)
                == Some((t.0 as int, t.1 as int, t.2 as int)) && valid_day(
                t.1 as int,
                t.0 as int,
                t.2 as int,
            ),
            None => months_later(d.year as int, d.month as int, d.day as int, months as int) is None,
        },
{
    match chrono::NaiveDate::from_ymd_opt(d.year as i32, d.month as u32, d.day as u32) {
        Some(n) => match n.checked_add_months(chrono::Months::new(months)) {
            Some(x) => Some((x.year(), x.month(), x.day())),
            None => None,
        },
        None => None,
    }
}

/// Relies on `chrono::Weekday::num_days_from_monday` of the date's `weekday`: 0 to 6.
#[verifier::external_body]
fn weekday_of(d: &Date) -> (r: u32)
    requires
        d.wf(),
    ensures
        r < 7,
        r as int == weekday_index(d.year as int, d.month as int, d.day as int),
{
    match chrono::NaiveDate::from_ymd_opt(d.year as i32, d.month as u32, d.day as u32) {
        Some(n) => n.weekday().num_days_from_monday(),
        None => 0,
    }
}

/// Relies on `chrono::NaiveDate::signed_duration_since` and `TimeDelta::num_days`.
#[verifier::external_body]
fn days_between(a: &Date, b: &Date) -> (r: i64)
    requires
        a.wf(),
        b.wf(),
    ensures
        r as int == day_distance(
            a.year as int,
            a.month as int,
            a.day as int,
            b.year as int,
            b.month as int,
            b.day as int,
        ),
{
    match (
        chrono::NaiveDate::from_ymd_opt(a.year as i32, a.month as u32, a.day as u32),
        chrono::NaiveDate::from_ymd_opt(b.year as i32, b.month as u32, b.day as u32),
    ) {
        (Some(x), Some(y)) => x.signed_duration_since(y).num_days(),
        _ => 0,
    }
}

/// Text of a date as `display` writes it: day, short month name, year.
pub open spec fn date_text(d: Date) -> Seq<char> {
    nat_text(d.day as nat) + "-"@ + short_month(d.month as int) + "-"@ + nat_text(d.year as nat)
}

impl Date {
    /// A valid calendar date.
    pub open spec fn wf(self) -> bool {
        valid_day(self.month as int, self.year as int, self.day as int)
    }

    /// The date with the given day, month and year, where that date exists.
    pub fn new(day: usize, month: usize, year: u16) -> (r: Option<Date>)
        ensures
            r == date_of(year as int, month as int, day as int),
            r matches Some(d) ==> d.wf(),
    {
        if Date::validate_month_length(month, year, day) {
            Some(Date { day, month, year })
        } else {
            None
        }
    }

    /// Whether `length` is a day of the given month of the given year.
    pub fn validate_month_length(month: usize, year: u16, length: usize) -> (r: bool)
        ensures
            r == valid_day(month as int, year as int, length as int),
    {
        if month < 1 || month > 12 || length < 1 {
            return false;
        }
        let max: usize = if month == 2 {
            if year % 4 == 0 && (year % 100 != 0 || year % 400 == 0) {
                29
            } else {
                28
            }
        } else if month == 4 || month == 6 || month == 9 || month == 11 {
            30
        } else {
            31
        };
        length <= max
    }

    /// The date from chrono's year, month and day numbers.
    pub fn from_date(year: i32, month: u32, day: u32) -> (r: Result<Date, Error>)
        ensures
            match r {
                Ok(d) => date_of(year as int, month as int, day as int) == Some(d),
                Err(_) => date_of(year as int, month as int, day as int) is None,
            },
            r matches Ok(d) ==> d.wf(),
    {
        if year < 0 || year > 65535 {
            return Err(Error::new(CodeComponent::Date, "Could not fit the year in the date."));
        }
        match Date::new(day as usize, month as usize, year as u16) {
            Some(d) => Ok(d),
            None => Err(Error::new(CodeComponent::Date, "The day does not exist in its month.")),
        }
    }

    pub fn month_to_short(month: usize) -> (r: &'static str)
        requires
            1 <= month <= 12,
        ensures
            r@ == short_month(month as int),
    {
        let short_months = [
            "Jan",
            "Feb",
            "Mar",
            "Apr",
            "May",
            "Jun",
            "Jul",
            "Aug",
            "Sep",
            "Oct",
            "Nov",
            "Dec",
        ];
        short_months[month - 1]
    }

    /// The date as `day-Mon-year`, for example `7-Mar-2026`.
    pub fn display(&self) -> (r: String)
        requires
            self.wf(),
        ensures
            r@ == date_text(*self),
    {
        let mut out: Vec<char> = nat_chars(self.day as u128);
        append_str(&mut out, "-");
        append_str(&mut out, Date::month_to_short(self.month));
        append_str(&mut out, "-");
        let y = nat_chars(self.year as u128);
        append(&mut out, &y);
        string_from_chars(&out)
    }

    /// Whole days from `relative` to this date.
    pub fn distance(&self, relative: Date) -> (r: Result<i64, Error>)
        requires
            self.wf(),
            relative.wf(),
        ensures
            r matches Ok(n) && n as int == day_distance(
                self.year as int,
                self.month as int,
                self.day as int,
                relative.year as int,
                relative.month as int,
                relative.day as int,
            ),
    {
        Ok(days_between(self, &relative))
    }
}

pub open spec fn usize_of(s: Seq<char>) -> Option<int> {
    int_of(s, false, 0, usize::MAX as int)
}

/// Day number: the whole word, else its first two characters, else its first one, read as a
/// number; at most 366 in a leap year and 365 otherwise (the month is checked later).
pub open spec fn day_of(s: Seq<char>, year: int) -> Option<int> {
    let whole = usize_of(s);
    let two = if s.len() > 2 {
        usize_of(s.subrange(0, 2))
    } else {
        None
    };
    let one = if s.len() > 1 {
        usize_of(s.subrange(0, 1))
    } else {
        None
    };
    let v = if whole is Some {
        whole
    } else if two is Some {
        two
    } else {
        one
    };
    match v {
        Some(n) => if n <= max_day_number(year) {
            Some(n)
        } else {
            None
        },
        None => None,
    }
}

pub open spec fn max_day_number(year: int) -> int {
    if is_leap(year) {
        366
    } else {
        365
    }
}

pub open spec fn month_name(i: int) -> Seq<char> {
    if i == 0 {
        "january"@
    } else if i == 1 {
        "february"@
    } else if i == 2 {
        "march"@
    } else if i == 3 {
        "april"@
    } else if i == 4 {
        "may"@
    } else if i == 5 {
        "june"@
    } else if i == 6 {
        "july"@
    } else if i == 7 {
        "august"@
    } else if i == 8 {
        "september"@
    } else if i == 9 {
        "october"@
    } else if i == 10 {
        "november"@
    } else {
        "december"@
    }
}

/// The number of the first month from index `i` on whose name starts with `p`.
pub open spec fn first_month_from(p: Seq<char>, i: int) -> Option<int>
    decreases 12 - i,
{
    if i < 0 || i >= 12 {
        None
    } else if is_prefix(p, month_name(i)) {
        Some(i + 1)
    } else {
        first_month_from(p, i + 1)
    }
}

/// Month number: digits from 2 to 12, or the start of an English month name in any case.
pub open spec fn month_of(s: Seq<char>) -> Option<int> {
    if s.len() == 0 {
        None
    } else {
        match usize_of(s) {
            Some(n) => if 1 < n <= 12 {
                Some(n)
            } else {
                None
            },
            None => first_month_from(lower(s), 0),
        }
    }
}

/// Year number; years below 1000 are read as years of this millennium.
pub open spec fn year_of(s: Seq<char>) -> Option<int> {
    match int_of(s, false, 0, u16::MAX as int) {
        Some(v) => Some(
            if v < 1000 {
                v + 2000
            } else {
                v
            },
        ),
        None => None,
    }
}

/// The date from a day word, a month word and a year word.
pub open spec fn dmy(d: Seq<char>, m: Seq<char>, y: Seq<char>) -> Option<Date> {
    match year_of(y) {
        None => None,
        Some(year) => match month_of(m) {
            None => None,
            Some(month) => match day_of(d, year) {
                None => None,
                Some(day) => if valid_day(month, year, day) {
                    Some(Date { day: day as usize, month: month as usize, year: year as u16 })
                } else {
                    None
                },
            },
        },
    }
}

pub open spec fn or_else(a: Option<Date>, b: Option<Date>) -> Option<Date> {
    if a is Some {
        a
    } else {
        b
    }
}

/// Three words read as day-month-year, else month-day-year, else year-month-day.
pub open spec fn three_words(w1: Seq<char>, w2: Seq<char>, w3: Seq<char>) -> Option<Date> {
    or_else(dmy(w1, w2, w3), or_else(dmy(w2, w1, w3), dmy(w3, w2, w1)))
}

/// The year in which a day of month `month` next comes, given the other word as its day.
pub open spec fn inferred_year(month: int, other: Seq<char>, today: Date) -> int {
    let day = match day_of(other, today.year as int) {
        Some(d) => d,
        None => 1,
    };
    if month > today.month {
        today.year as int
    } else if month == today.month && day > today.day {
        today.year as int
    } else {
        today.year + 1
    }
}

/// Two words, tried in turn as day-month, day-year, month-day, month-year, year-month and
/// year-day, with the missing part inferred from today.
pub open spec fn two_words(w1: Seq<char>, w2: Seq<char>, today: Date) -> Option<Date> {
    let m1 = match month_of(w1) {
        Some(m) => m,
        None => 1,
    };
    let m2 = match month_of(w2) {
        Some(m) => m,
        None => 1,
    };
    let y1 = int_text(inferred_year(m1, w2, today));
    let y2 = int_text(inferred_year(m2, w1, today));
    let cm = int_text(today.month as int);
    or_else(
        dmy(w1, w2, y2),
        or_else(
            dmy(w1, cm, w2),
            or_else(
                dmy(w2, w1, y1),
                or_else(dmy("1"@, w1, w2), or_else(dmy("1"@, w2, w1), dmy(w2, cm, w1))),
            ),
        ),
    )
}

pub open spec fn date_of_triple(t: Option<(int, int, int)>) -> Option<Date> {
    match t {
        Some(x) => date_of(x.0, x.1, x.2),
        None => None,
    }
}

pub open spec fn after_days(today: Date, n: int) -> Option<Date> {
    date_of_triple(days_later(today.year as int, today.month as int, today.day as int, n))
}

pub open spec fn after_months(today: Date, n: int) -> Option<Date> {
    date_of_triple(months_later(today.year as int, today.month as int, today.day as int, n))
}

pub open spec fn weekday_name(i: int) -> Seq<char> {
    if i == 0 {
        "monday"@
    } else if i == 1 {
        "tuesday"@
    } else if i == 2 {
        "wednesday"@
    } else if i == 3 {
        "thursday"@
    } else if i == 4 {
        "friday"@
    } else if i == 5 {
        "saturday"@
    } else {
        "sunday"@
    }
}

/// `s` names weekday `i` after the word "next".
pub open spec fn next_weekday_hit(s: Seq<char>, i: int) -> bool {
    let w = split(s, ' ');
    w.len() == 2 && w[0] == "next"@ && is_prefix(lower(w[1]), weekday_name(i))
}

/// The first weekday from `i` on that `s` names, and whether "next" came before it.
pub open spec fn first_weekday_from(s: Seq<char>, i: int) -> Option<(int, bool)>
    decreases 7 - i,
{
    if i < 0 || i >= 7 {
        None
    } else if is_prefix(lower(s), weekday_name(i)) {
        Some((i, false))
    } else if next_weekday_hit(s, i) {
        Some((i, true))
    } else {
        first_weekday_from(s, i + 1)
    }
}

/// The coming day of the named weekday (a week later after "next").
pub open spec fn weekday_date(s: Seq<char>, today: Date) -> Option<Date> {
    if s.len() == 0 {
        None
    } else {
        match first_weekday_from(s, 0) {
            None => None,
            Some(hit) => {
                let w = weekday_index(today.year as int, today.month as int, today.day as int);
                let base = if hit.0 > w {
                    hit.0 - w
                } else {
                    hit.0 - w + 7
                };
                let delta = if hit.1 {
                    base + 7
                } else {
                    base
                };
                if 0 <= delta <= 14 {
                    after_days(today, delta)
                } else {
                    None
                }
            },
        }
    }
}

/// "in N day(s)", "tomorrow", or a weekday.
pub open spec fn relative_day(s: Seq<char>, today: Date) -> Option<Date> {
    if is_prefix("in "@, s) {
        if is_suffix(" day"@, s) || is_suffix(" days"@, s) {
            let parts = split(s, ' ');
            if parts.len() < 2 {
                None
            } else {
                match usize_of(parts[1]) {
                    Some(n) => after_days(today, n),
                    None => None,
                }
            }
        } else {
            weekday_date(s, today)
        }
    } else if s == "tomorrow"@ {
        after_days(today, 1)
    } else {
        weekday_date(s, today)
    }
}

/// A month name or number (its next first day), "in N month(s)", or "next month".
pub open spec fn relative_month(s: Seq<char>, today: Date) -> Option<Date> {
    if s.len() == 0 {
        None
    } else {
        match month_of(s) {
            Some(m) => date_of(
                if m <= today.month {
                    today.year + 1
                } else {
                    today.year as int
                },
                m,
                1,
            ),
            None => if is_prefix("in "@, s) {
                if is_suffix(" month"@, s) || is_suffix(" months"@, s) {
                    let parts = split(s, ' ');
                    if parts.len() < 2 {
                        None
                    } else {
                        match usize_of(parts[1]) {
                            Some(n) => if n <= u32::MAX {
                                after_months(today, n)
                            } else {
                                None
                            },
                            None => None,
                        }
                    }
                } else {
                    None
                }
            } else if s == "next month"@ {
                after_months(today, 1)
            } else {
                None
            },
        }
    }
}

/// "in N year(s)" or "next year": today's day and month in that year, where it has them.
pub open spec fn relative_year(s: Seq<char>, today: Date) -> Option<Date> {
    if is_prefix("in "@, s) {
        if is_suffix(" year"@, s) || is_suffix(" years"@, s) {
            let parts = split(s, ' ');
            if parts.len() < 2 {
                None
            } else {
                match int_of(parts[1], false, 0, u16::MAX as int) {
                    Some(n) => date_of(today.year + n, today.month as int, today.day as int),
                    None => None,
                }
            }
        } else {
            None
        }
    } else if s == "next year"@ {
        date_of(today.year + 1, today.month as int, today.day as int)
    } else {
        None
    }
}

pub open spec fn relative_date(s: Seq<char>, today: Date) -> Option<Date> {
    or_else(relative_day(s, today), or_else(relative_month(s, today), relative_year(s, today)))
}

/// A date expression, relative ones first, then absolute ones split on `/`, `-` or a space.
#[verifier::opaque]
pub open spec fn date_parse(s: Seq<char>, today: Date) -> Option<Date> {
    let slash = split(s, '/');
    let dash = split(s, '-');
    let space = split(s, ' ');
    if relative_date(s, today) is Some {
        relative_date(s, today)
    } else if slash.len() == 3 {
        three_words(slash[0], slash[1], slash[2])
    } else if dash.len() == 3 {
        three_words(dash[0], dash[1], dash[2])
    } else if space.len() == 3 {
        three_words(space[0], space[1], space[2])
    } else if slash.len() == 2 {
        two_words(slash[0], slash[1], today)
    } else if dash.len() == 2 {
        two_words(dash[0], dash[1], today)
    } else if space.len() == 2 {
        two_words(space[0], space[1], today)
    } else {
        None
    }
}

/// `r` is `Ok` exactly where `o` is `Some`, with the same date.
pub open spec fn agrees(r: Result<Date, Error>, o: Option<Date>) -> bool {
    match r {
        Ok(d) => o == Some(d),
        Err(_) => o is None,
    }
}

fn date_from_triple(t: Option<(i32, u32, u32)>) -> (r: Result<Date, Error>)
    ensures
        agrees(
            r,
            date_of_triple(
                match t {
                    Some(x) => Some((x.0 as int, x.1 as int, x.2 as int)),
                    None => None,
                },
            ),
        ),
            r matches Ok(d) ==> d.wf(),
{
    match t {
        Some(x) => Date::from_date(x.0, x.1, x.2),
        None => Err(Error::new(CodeComponent::DateParser, "The date is out of range.")),
    }
}

fn month_name_text(i: usize) -> (r: &'static str)
    requires
        i < 12,
    ensures
        r@ == month_name(i as int),
{
    let names = [
        "january",
        "february",
        "march",
        "april",
        "may",
        "june",
        "july",
        "august",
        "september",
        "october",
        "november",
        "december",
    ];
    names[i]
}

fn weekday_name_text(i: usize) -> (r: &'static str)
    requires
        i < 7,
    ensures
        r@ == weekday_name(i as int),
{
    let names = ["monday", "tuesday", "wednesday", "thursday", "friday", "saturday", "sunday"];
    names[i]
}

fn date_error(message: &str) -> (r: Error) {
    Error::new(CodeComponent::DateParser, message)
}

/// The first weekday that `s` names, as `first_weekday_from` gives it.
fn find_weekday(s: &Vec<char>) -> (r: Option<(usize, bool)>)
    ensures
        match r {
            Some(h) => first_weekday_from(s@, 0) == Some((h.0 as int, h.1)) && h.0 < 7,
            None => first_weekday_from(s@, 0) is None,
        },
{
    let low = lower_of(s);
    let words = split_of(s, ' ');
    let next = chars_of("next");
    let mut i: usize = 0;
    while i < 7
        invariant
            i <= 7,
            low@ == lower(s@),
            views(words@) == split(s@, ' '),
            next@ == "next"@,
            first_weekday_from(s@, i as int) == first_weekday_from(s@, 0),
        decreases 7 - i,
    {
        let name = chars_of(weekday_name_text(i));
        if starts_with(&name, &low) {
            return Some((i, false));
        }
        if words.len() == 2 && eq_chars(&words[0], &next) {
            let w = lower_of(&words[1]);
            if starts_with(&name, &w) {
                return Some((i, true));
            }
        }
        i += 1;
    }
    None
}

fn usize_max() -> (r: i128)
    ensures
        r == usize::MAX,
        r < crate::text::BIG,
{
    usize::MAX as i128
}

impl Date {
    fn parse_day(day: &Vec<char>, year: u16) -> (r: Result<usize, Error>)
        ensures
            match r {
                Ok(n) => day_of(day@, year as int) == Some(n as int),
                Err(_) => day_of(day@, year as int) is None,
            },
    {
        let whole = parse_int(day, false, 0, usize_max());
        let two = if day.len() > 2 {
            let p = slice_of(day, 0, 2);
            parse_int(&p, false, 0, usize_max())
        } else {
            None
        };
        let one = if day.len() > 1 {
            let p = slice_of(day, 0, 1);
            parse_int(&p, false, 0, usize_max())
        } else {
            None
        };
        let v = if whole.is_some() {
            whole
        } else if two.is_some() {
            two
        } else {
            one
        };
        let max: i128 = if year % 4 == 0 && (year % 100 != 0 || year % 400 == 0) {
            366
        } else {
            365
        };
        match v {
            Some(n) => if n <= max {
                Ok(n as usize)
            } else {
                Err(date_error("The day is out of range."))
            },
            None => Err(date_error("Could not read the day.")),
        }
    }

    fn month_number(month: &Vec<char>) -> (r: Result<usize, Error>)
        ensures
            match r {
                Ok(n) => month_of(month@) == Some(n as int),
                Err(_) => month_of(month@) is None,
            },
            r matches Ok(n) ==> 1 <= n <= 12,
    {
        if month.len() == 0 {
            return Err(date_error("Cannot read an empty word as a month."));
        }
        match parse_int(month, false, 0, usize_max()) {
            Some(n) => if 1 < n && n <= 12 {
                Ok(n as usize)
            } else {
                Err(date_error("The month is out of range."))
            },
            None => {
                let low = lower_of(month);
                let mut i: usize = 0;
                while i < 12
                    invariant
                        i <= 12,
                        month@.len() > 0,
                        usize_of(month@) is None,
                        low@ == lower(month@),
                        first_month_from(low@, i as int) == first_month_from(low@, 0),
                    decreases 12 - i,
                {
                    let name = chars_of(month_name_text(i));
                    if starts_with(&name, &low) {
                        return Ok(i + 1);
                    }
                    i += 1;
                }
                Err(date_error("Could not read the month."))
            },
        }
    }

    /// The month that a word names: its number from 2 to 12, or the start of its name.
    pub fn parse_month(month: &str) -> (r: Result<usize, Error>)
        ensures
            match r {
                Ok(n) => month_of(month@) == Some(n as int),
                Err(_) => month_of(month@) is None,
            },
    {
        let m = chars_of(month);
        Date::month_number(&m)
    }

    fn parse_year(year: &Vec<char>) -> (r: Result<u16, Error>)
        ensures
            match r {
                Ok(n) => year_of(year@) == Some(n as int),
                Err(_) => year_of(year@) is None,
            },
    {
        match parse_int(year, false, 0, 65535) {
            Some(v) => if v < 1000 {
                Ok((v + 2000) as u16)
            } else {
                Ok(v as u16)
            },
            None => Err(date_error("Could not read the year.")),
        }
    }

    fn parse_dmy(d: &Vec<char>, m: &Vec<char>, y: &Vec<char>) -> (r: Result<Date, Error>)
        ensures
            agrees(r, dmy(d@, m@, y@)),
            r matches Ok(d) ==> d.wf(),
    {
        let year = match Date::parse_year(y) {
            Ok(v) => v,
            Err(e) => return Err(Error::wrap(CodeComponent::DateParser, "Bad year.", e)),
        };
        let month = match Date::month_number(m) {
            Ok(v) => v,
            Err(e) => return Err(Error::wrap(CodeComponent::DateParser, "Bad month.", e)),
        };
        let day = match Date::parse_day(d, year) {
            Ok(v) => v,
            Err(e) => return Err(Error::wrap(CodeComponent::DateParser, "Bad day.", e)),
        };
        if !Date::validate_month_length(month, year, day) {
            return Err(date_error("The day is too big for its month."));
        }
        Ok(Date { day, month, year })
    }

    fn parse_three_values(w1: &Vec<char>, w2: &Vec<char>, w3: &Vec<char>) -> (r: Result<
        Date,
        Error,
    >)
        ensures
            agrees(r, three_words(w1@, w2@, w3@)),
            r matches Ok(d) ==> d.wf(),
    {
        if let Ok(date) = Date::parse_dmy(w1, w2, w3) {
            return Ok(date);
        }
        if let Ok(date) = Date::parse_dmy(w2, w1, w3) {
            return Ok(date);
        }
        Date::parse_dmy(w3, w2, w1)
    }

    fn infer_year(month: usize, other: &Vec<char>, today: &Date) -> (r: u32)
        requires
            today.wf(),
        ensures
            r as int == inferred_year(month as int, other@, *today),
    {
        let day = match Date::parse_day(other, today.year) {
            Ok(d) => d,
            Err(_) => 1,
        };
        if month > today.month {
            today.year as u32
        } else if month == today.month && day > today.day {
            today.year as u32
        } else {
            today.year as u32 + 1
        }
    }

    fn parse_two_values(w1: &Vec<char>, w2: &Vec<char>, today: &Date) -> (r: Result<Date, Error>)
        requires
            today.wf(),
        ensures
            agrees(r, two_words(w1@, w2@, *today)),
            r matches Ok(d) ==> d.wf(),
    {
        let m1 = match Date::month_number(w1) {
            Ok(m) => m,
            Err(_) => 1,
        };
        let m2 = match Date::month_number(w2) {
            Ok(m) => m,
            Err(_) => 1,
        };
        let y1 = int_chars(Date::infer_year(m1, w2, today) as i128);
        let y2 = int_chars(Date::infer_year(m2, w1, today) as i128);
        let cm = int_chars(today.month as i128);
        let first = chars_of("1");
        if let Ok(date) = Date::parse_dmy(w1, w2, &y2) {
            return Ok(date);
        }
        if let Ok(date) = Date::parse_dmy(w1, &cm, w2) {
            return Ok(date);
        }
        if let Ok(date) = Date::parse_dmy(w2, w1, &y1) {
            return Ok(date);
        }
        if let Ok(date) = Date::parse_dmy(&first, w1, w2) {
            return Ok(date);
        }
        if let Ok(date) = Date::parse_dmy(&first, w2, w1) {
            return Ok(date);
        }
        Date::parse_dmy(w2, &cm, w1)
    }

    fn parse_day_of_the_week(s: &Vec<char>, today: &Date) -> (r: Result<Date, Error>)
        requires
            today.wf(),
        ensures
            agrees(r, weekday_date(s@, *today)),
            r matches Ok(d) ==> d.wf(),
    {
        if s.len() == 0 {
            return Err(date_error("Cannot read an empty word as a weekday."));
        }
        match find_weekday(s) {
            None => Err(date_error("Weekday not recognized.")),
            Some((target, skip)) => {
                let w = weekday_of(today);
                let t = target as i64;
                let base: i64 = if t > w as i64 {
                    t - w as i64
                } else {
                    t - w as i64 + 7
                };
                let delta: i64 = if skip {
                    base + 7
                } else {
                    base
                };
                if 0 <= delta && delta <= 14 {
                    date_from_triple(add_days(today, delta as u64))
                } else {
                    Err(date_error("The weekday is too far away."))
                }
            },
        }
    }

    fn parse_relative_day(s: &Vec<char>, today: &Date) -> (r: Result<Date, Error>)
        requires
            today.wf(),
        ensures
            agrees(r, relative_day(s@, *today)),
            r matches Ok(d) ==> d.wf(),
    {
        if starts_with(s, &chars_of("in ")) {
            if ends_with(s, &chars_of(" day")) || ends_with(s, &chars_of(" days")) {
                let parts = split_of(s, ' ');
                if parts.len() < 2 {
                    return Err(date_error("Missing the number of days."));
                }
                match parse_int(&parts[1], false, 0, usize_max()) {
                    Some(n) => date_from_triple(add_days(today, n as u64)),
                    None => Err(date_error("Could not read the number of days.")),
                }
            } else {
                Date::parse_day_of_the_week(s, today)
            }
        } else if eq_chars(s, &chars_of("tomorrow")) {
            date_from_triple(add_days(today, 1))
        } else {
            Date::parse_day_of_the_week(s, today)
        }
    }

    fn parse_relative_month(s: &Vec<char>, today: &Date) -> (r: Result<Date, Error>)
        requires
            today.wf(),
        ensures
            agrees(r, relative_month(s@, *today)),
            r matches Ok(d) ==> d.wf(),
    {
        if s.len() == 0 {
            return Err(date_error("Cannot read an empty word as a month."));
        }
        if let Ok(m) = Date::month_number(s) {
            let year: i32 = if m <= today.month {
                today.year as i32 + 1
            } else {
                today.year as i32
            };
            return Date::from_date(year, m as u32, 1);
        }
        if starts_with(s, &chars_of("in ")) {
            if ends_with(s, &chars_of(" month")) || ends_with(s, &chars_of(" months")) {
                let parts = split_of(s, ' ');
                if parts.len() < 2 {
                    return Err(date_error("Missing the number of months."));
                }
                match parse_int(&parts[1], false, 0, usize_max()) {
                    Some(n) => if n <= 4294967295 {
                        date_from_triple(add_months(today, n as u32))
                    } else {
                        Err(date_error("Too many months."))
                    },
                    None => Err(date_error("Could not read the number of months.")),
                }
            } else {
                Err(date_error("Not a month expression."))
            }
        } else if eq_chars(s, &chars_of("next month")) {
            date_from_triple(add_months(today, 1))
        } else {
            Err(date_error("Not a month expression."))
        }
    }

    fn parse_relative_year(s: &Vec<char>, today: &Date) -> (r: Result<Date, Error>)
        requires
            today.wf(),
        ensures
            agrees(r, relative_year(s@, *today)),
            r matches Ok(d) ==> d.wf(),
    {
        if starts_with(s, &chars_of("in ")) {
            if ends_with(s, &chars_of(" year")) || ends_with(s, &chars_of(" years")) {
                let parts = split_of(s, ' ');
                if parts.len() < 2 {
                    return Err(date_error("Missing the number of years."));
                }
                match parse_int(&parts[1], false, 0, 65535) {
                    Some(n) => Date::from_date(
                        today.year as i32 + n as i32,
                        today.month as u32,
                        today.day as u32,
                    ),
                    None => Err(date_error("Could not read the number of years.")),
                }
            } else {
                Err(date_error("Not a year expression."))
            }
        } else if eq_chars(s, &chars_of("next year")) {
            Date::from_date(today.year as i32 + 1, today.month as u32, today.day as u32)
        } else {
            Err(date_error("Not a year expression."))
        }
    }

    fn relative_of(s: &Vec<char>, today: &Date) -> (r: Result<Date, Error>)
        requires
            today.wf(),
        ensures
            agrees(r, relative_date(s@, *today)),
            r matches Ok(d) ==> d.wf(),
    {
        if let Ok(d) = Date::parse_relative_day(s, today) {
            return Ok(d);
        }
        if let Ok(d) = Date::parse_relative_month(s, today) {
            return Ok(d);
        }
        Date::parse_relative_year(s, today)
    }

    /// A relative date expression ("tomorrow", "in 3 days", "next month", "friday", ...)
    /// read against `today`.
    pub fn parse_relative_date(input: &str, today: Date) -> (r: Result<Date, Error>)
        requires
            today.wf(),
        ensures
            agrees(r, relative_date(input@, today)),
            r matches Ok(d) ==> d.wf(),
    {
        let s = chars_of(input);
        Date::relative_of(&s, &today)
    }

    /// A date expression, relative or absolute, read against `today`.
    pub fn parse(date: &str, today: Date) -> (r: Result<Date, Error>)
        requires
            today.wf(),
        ensures
            agrees(r, date_parse(date@, today)),
            r matches Ok(d) ==> d.wf(),
    {
        let s = chars_of(date);
        reveal(date_parse);
        if let Ok(d) = Date::relative_of(&s, &today) {
            return Ok(d);
        }
        Date::absolute_of(&s, &today)
    }

    #[verifier::rlimit(40)]
    fn absolute_of(s: &Vec<char>, today: &Date) -> (r: Result<Date, Error>)
        requires
            today.wf(),
            relative_date(s@, *today) is None,
        ensures
            agrees(r, date_parse(s@, *today)),
            r matches Ok(d) ==> d.wf(),
    {
        reveal(date_parse);
        let slash = split_of(s, '/');
        let dash = split_of(s, '-');
        let space = split_of(s, ' ');
        if slash.len() == 3 {
            Date::parse_three_values(&slash[0], &slash[1], &slash[2])
        } else if dash.len() == 3 {
            Date::parse_three_values(&dash[0], &dash[1], &dash[2])
        } else if space.len() == 3 {
            Date::parse_three_values(&space[0], &space[1], &space[2])
        } else if slash.len() == 2 {
            Date::parse_two_values(&slash[0], &slash[1], today)
        } else if dash.len() == 2 {
            Date::parse_two_values(&dash[0], &dash[1], today)
        } else if space.len() == 2 {
            Date::parse_two_values(&space[0], &space[1], today)
        } else {
            Err(date_error("The date could not be split into 2 or 3 words."))
        }
    }
}

proof fn lemma_names_start_with_letters()
    ensures
        forall|i: int| 0 <= i < 12 ==> #[trigger] month_name(i).len() >= 3 && !is_digit(month_name(i)[0]),
        forall|i: int| 0 <= i < 7 ==> #[trigger] weekday_name(i).len() >= 3 && !is_digit(weekday_name(i)[0]),
{
    reveal_strlit("january");
    reveal_strlit("february");
    reveal_strlit("march");
    reveal_strlit("april");
    reveal_strlit("may");
    reveal_strlit("june");
    reveal_strlit("july");
    reveal_strlit("august");
    reveal_strlit("september");
    reveal_strlit("october");
    reveal_strlit("november");
    reveal_strlit("december");
    reveal_strlit("monday");
    reveal_strlit("tuesday");
    reveal_strlit("wednesday");
    reveal_strlit("thursday");
    reveal_strlit("friday");
    reveal_strlit("saturday");
    reveal_strlit("sunday");
}

/// Text that starts with a digit is no prefix of a word that does not.
proof fn lemma_digit_not_prefix(p: Seq<char>, w: Seq<char>)
    requires
        p.len() > 0,
        is_digit(p[0]),
        w.len() > 0,
        !is_digit(w[0]),
    ensures
        !is_prefix(p, w),
        !is_prefix(w, p),
{
    if is_prefix(p, w) {
        assert(w.subrange(0, p.len() as int)[0] == w[0]);
    }
    if is_prefix(w, p) {
        assert(p.subrange(0, w.len() as int)[0] == p[0]);
    }
}

proof fn lemma_no_month_from(s: Seq<char>, i: int)
    requires
        s.len() > 0,
        is_digit(s[0]),
        0 <= i,
    ensures
        first_month_from(lower(s), i) is None,
    decreases 12 - i,
{
    if i < 12 {
        lemma_names_start_with_letters();
        assert(lower(s)[0] == s[0]);
        lemma_digit_not_prefix(lower(s), month_name(i));
        lemma_no_month_from(s, i + 1);
    }
}

proof fn lemma_no_weekday_from(s: Seq<char>, i: int)
    requires
        s.len() > 0,
        is_digit(s[0]),
        split(s, ' ').len() == 1,
        0 <= i,
    ensures
        first_weekday_from(s, i) is None,
    decreases 7 - i,
{
    if i < 7 {
        lemma_names_start_with_letters();
        assert(lower(s)[0] == s[0]);
        lemma_digit_not_prefix(lower(s), weekday_name(i));
        lemma_no_weekday_from(s, i + 1);
    }
}

/// No relative expression starts with a digit and has no space and a dash in it.
proof fn lemma_not_relative(s: Seq<char>, k: int, today: Date)
    requires
        s.len() > 0,
        is_digit(s[0]),
        forall|i: int| 0 <= i < s.len() ==> s[i] != ' ',
        0 <= k < s.len(),
        s[k] == '-',
    ensures
        relative_date(s, today) is None,
{
    reveal_strlit("in ");
    reveal_strlit("tomorrow");
    reveal_strlit("next month");
    reveal_strlit("next year");
    crate::text::lemma_split_none(s, ' ');
    lemma_digit_not_prefix(s, "in "@);
    lemma_digit_not_prefix(s, "tomorrow"@);
    lemma_digit_not_prefix(s, "next month"@);
    lemma_digit_not_prefix(s, "next year"@);
    assert(s != "tomorrow"@);
    assert(s != "next month"@);
    assert(s != "next year"@);
    lemma_no_weekday_from(s, 0);
    lemma_no_month_from(s, 0);
    assert(!all_digits(s)) by {
        assert(!is_digit(s[k]));
    }
    assert(usize_of(s) is None);
}

proof fn lemma_first3(p: Seq<char>, name: Seq<char>)
    requires
        p.len() == 3,
        name.len() >= 3,
    ensures
        is_prefix(p, name) <==> (name[0] == p[0] && name[1] == p[1] && name[2] == p[2]),
{
    if name[0] == p[0] && name[1] == p[1] && name[2] == p[2] {
        assert(name.subrange(0, 3) =~= p);
    }
    if is_prefix(p, name) {
        assert(name.subrange(0, 3)[0] == name[0]);
        assert(name.subrange(0, 3)[1] == name[1]);
        assert(name.subrange(0, 3)[2] == name[2]);
    }
}

/// A month's short name reads back as that month, and holds no separator.
proof fn lemma_short_month(m: int)
    requires
        1 <= m <= 12,
    ensures
        month_of(short_month(m)) == Some(m),
        short_month(m).len() == 3,
        forall|i: int|
            0 <= i < 3 ==> #[trigger] short_month(m)[i] != '-' && short_month(m)[i] != '/'
                && short_month(m)[i] != ' ' && short_month(m)[i] != '\\' && short_month(m)[i]
                != '\n' && !is_digit(
                short_month(m)[i],
            ),
{
    reveal_strlit("Jan");
    reveal_strlit("Feb");
    reveal_strlit("Mar");
    reveal_strlit("Apr");
    reveal_strlit("May");
    reveal_strlit("Jun");
    reveal_strlit("Jul");
    reveal_strlit("Aug");
    reveal_strlit("Sep");
    reveal_strlit("Oct");
    reveal_strlit("Nov");
    reveal_strlit("Dec");
    reveal_strlit("january");
    reveal_strlit("february");
    reveal_strlit("march");
    reveal_strlit("april");
    reveal_strlit("may");
    reveal_strlit("june");
    reveal_strlit("july");
    reveal_strlit("august");
    reveal_strlit("september");
    reveal_strlit("october");
    reveal_strlit("november");
    reveal_strlit("december");
    let s = short_month(m);
    let p = lower(s);
    assert(p.len() == 3);
    assert forall|j: int| 0 <= j < 12 implies (#[trigger] is_prefix(p, month_name(j))) <==> (
    month_name(j)[0] == p[0] && month_name(j)[1] == p[1] && month_name(j)[2] == p[2]) by {
        lemma_first3(p, month_name(j));
    }
    assert(!is_digit(s[0]));
    assert(!all_digits(s));
    assert(usize_of(s) is None);
    reveal_with_fuel(first_month_from, 13);
}

/// Reading the text that `display` gives returns the date, for years from 1000 on (the
/// reader takes smaller years as years of this millennium).
pub proof fn lemma_display_round_trip(d: Date, today: Date)
    requires
        d.wf(),
        d.year >= 1000,
    ensures
        date_parse(date_text(d), today) == Some(d),
{
    reveal(date_parse);
    let dt = nat_text(d.day as nat);
    let mon = short_month(d.month as int);
    let yt = nat_text(d.year as nat);
    crate::text::lemma_nat_text(d.day as nat);
    crate::text::lemma_nat_text(d.year as nat);
    lemma_short_month(d.month as int);
    reveal_strlit("-");
    let s = date_text(d);
    assert(s == dt.push('-') + (mon.push('-') + yt));
    assert forall|i: int| 0 <= i < dt.len() implies dt[i] != '-' && dt[i] != '/' && dt[i] != ' ' by {
        assert(is_digit(dt[i]));
    }
    assert forall|i: int| 0 <= i < yt.len() implies yt[i] != '-' && yt[i] != '/' && yt[i] != ' ' by {
        assert(is_digit(yt[i]));
    }
    assert forall|i: int| 0 <= i < s.len() implies s[i] != ' ' && s[i] != '/' by {
        if i < dt.len() {
            assert(s[i] == dt[i]);
        } else if i == dt.len() {
        } else if i < dt.len() + 4 {
            assert(s[i] == mon[i - dt.len() - 1]);
        } else if i == dt.len() + 4 {
        } else {
            assert(s[i] == yt[i - dt.len() - 5]);
        }
    }
    assert(s[0] == dt[0]);
    assert(s[dt.len() as int] == '-');
    lemma_not_relative(s, dt.len() as int, today);
    crate::text::lemma_split_none(s, '/');
    crate::text::lemma_split_after(dt, '-', mon.push('-') + yt);
    crate::text::lemma_split_after(mon, '-', yt);
    crate::text::lemma_split_none(yt, '-');
    let dash = split(s, '-');
    assert(dash =~= seq![dt, mon, yt]);
    crate::text::lemma_int_of_nat_text(d.year as nat, false, 0, u16::MAX as int);
    crate::text::lemma_int_of_nat_text(d.day as nat, false, 0, usize::MAX as int);
    assert(year_of(yt) == Some(d.year as int));
    assert(day_of(dt, d.year as int) == Some(d.day as int));
    assert(dmy(dt, mon, yt) == Some(d));
}

/// The text of a date starts and ends with a digit, holds no backslash or space, and is no
/// integer.
pub proof fn lemma_date_text_shape(d: Date)
    requires
        d.wf(),
    ensures
        date_text(d).len() > 0,
        crate::text::is_digit(date_text(d)[0]),
        crate::text::is_digit(date_text(d).last()),
        forall|i: int|
            0 <= i < date_text(d).len() ==> #[trigger] date_text(d)[i] != '\\' && date_text(d)[i]
                != ' ',
        int_of(date_text(d), true, i64::MIN as int, i64::MAX as int) is None,
{
    let dt = nat_text(d.day as nat);
    let mon = short_month(d.month as int);
    let yt = nat_text(d.year as nat);
    crate::text::lemma_nat_text(d.day as nat);
    crate::text::lemma_nat_text(d.year as nat);
    lemma_short_month(d.month as int);
    reveal_strlit("-");
    let s = date_text(d);
    assert(s == dt.push('-') + (mon.push('-') + yt));
    assert forall|i: int| 0 <= i < s.len() implies #[trigger] s[i] != '\\' && s[i] != ' ' by {
        if i < dt.len() {
            assert(s[i] == dt[i]);
            assert(is_digit(dt[i]));
        } else if i == dt.len() {
        } else if i < dt.len() + 4 {
            assert(s[i] == mon[i - dt.len() - 1]);
        } else if i == dt.len() + 4 {
        } else {
            assert(s[i] == yt[i - dt.len() - 5]);
            assert(is_digit(yt[i - dt.len() - 5]));
        }
    }
    assert(s[0] == dt[0]);
    assert(s.last() == yt.last());
    assert(is_digit(yt[yt.len() - 1]));
    assert(!is_digit(s[dt.len() as int]));
}

/// The text of a date holds no line break.
pub proof fn lemma_date_text_line(d: Date)
    requires
        d.wf(),
    ensures
        forall|i: int| 0 <= i < date_text(d).len() ==> #[trigger] date_text(d)[i] != '\n',
{
    let dt = nat_text(d.day as nat);
    let mon = short_month(d.month as int);
    let yt = nat_text(d.year as nat);
    crate::text::lemma_nat_text(d.day as nat);
    crate::text::lemma_nat_text(d.year as nat);
    lemma_short_month(d.month as int);
    reveal_strlit("-");
    let s = date_text(d);
    assert(s == dt.push('-') + (mon.push('-') + yt));
    assert forall|i: int| 0 <= i < s.len() implies #[trigger] s[i] != '\n' by {
        if i < dt.len() {
            assert(s[i] == dt[i]);
            assert(is_digit(dt[i]));
        } else if i == dt.len() {
        } else if i < dt.len() + 4 {
            assert(s[i] == mon[i - dt.len() - 1]);
        } else if i == dt.len() + 4 {
        } else {
            assert(s[i] == yt[i - dt.len() - 5]);
            assert(is_digit(yt[i - dt.len() - 5]));
        }
    }
}

} // verus!
