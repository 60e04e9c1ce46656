//! Calendar dates of the proleptic Gregorian calendar, as `chrono` represents them.
use vstd::prelude::*;

use chrono::{Datelike, NaiveDate, TimeDelta, Utc};

verus! {

/// The first year a date can have.
pub const MIN_YEAR: i32 = -262143;

/// The last year a date can have.
pub const MAX_YEAR: i32 = 262142;

/// A calendar date as three mathematical integers.
pub struct Ymd {
    pub year: int,
    pub month: int,
    pub day: int,
}

pub open spec fn ymd(year: int, month: int, day: int) -> Ymd {
    Ymd { year, month, day }
}

pub open spec fn is_leap_year(y: int) -> bool {
    (y % 4 == 0 && y % 100 != 0) || y % 400 == 0
}

pub open spec fn days_in_month(y: int, m: int) -> int {
    if m == 2 {
        if is_leap_year(y) { 29 } else { 28 }
    } else if m == 4 || m == 6 || m == 9 || m == 11 {
        30
    } else {
        31
    }
}

pub open spec fn days_in_year(y: int) -> int {
    if is_leap_year(y) { 366 } else { 365 }
}

/// A year, month and day that name a day that exists and that lies in the supported range.
pub open spec fn is_valid_date(d: Ymd) -> bool {
    &&& MIN_YEAR <= d.year <= MAX_YEAR
    &&& 1 <= d.month <= 12
    &&& 1 <= d.day <= days_in_month(d.year, d.month)
}

/// Days of the years before `y`, counted from 1 January of year 1.
pub open spec fn days_before_year(y: int) -> int {
    let p = y - 1;
    365 * p + p / 4 - p / 100 + p / 400
}

/// Days of the months of year `y` before month `m`.
pub open spec fn days_before_month(y: int, m: int) -> int {
    let base: int = if m <= 1 {
        0
    } else if m == 2 {
        31
    } else if m == 3 {
        59
    } else if m == 4 {
        90
    } else if m == 5 {
        120
    } else if m == 6 {
        151
    } else if m == 7 {
        181
    } else if m == 8 {
        212
    } else if m == 9 {
        243
    } else if m == 10 {
        273
    } else if m == 11 {
        304
    } else {
        334
    };
    if m > 2 && is_leap_year(y) { base + 1 } else { base }
}

/// The number of the day, with 1 January of year 1 as day 1.
pub open spec fn day_number(d: Ymd) -> int {
    days_before_year(d.year) + days_before_month(d.year, d.month) + d.day
}

/// The day of the week, from 1 for Monday to 7 for Sunday (1 January of year 1 was a Monday).
pub open spec fn weekday_from_monday(d: Ymd) -> int {
    (day_number(d) - 1) % 7 + 1
}

pub open spec fn first_date() -> Ymd {
    ymd(MIN_YEAR as int, 1, 1)
}

pub open spec fn last_date() -> Ymd {
    ymd(MAX_YEAR as int, 12, 31)
}

/// Whether a day number names a date of the supported range.
pub open spec fn day_number_in_range(n: int) -> bool {
    day_number(first_date()) <= n <= day_number(last_date())
}

/// `a` comes strictly before `b`.
pub open spec fn date_lt(a: Ymd, b: Ymd) -> bool {
    ||| a.year < b.year
    ||| a.year == b.year && a.month < b.month
    ||| a.year == b.year && a.month == b.month && a.day < b.day
}

/// `a` comes before `b` or is `b`.
pub open spec fn date_le(a: Ymd, b: Ymd) -> bool {
    date_lt(a, b) || a == b
}

/// The following day, unless `d` is the last date of the range.
pub open spec fn next_day(d: Ymd) -> Option<Ymd> {
    if d.day < days_in_month(d.year, d.month) {
        Some(ymd(d.year, d.month, d.day + 1))
    } else if d.month < 12 {
        Some(ymd(d.year, d.month + 1, 1))
    } else if d.year < MAX_YEAR {
        Some(ymd(d.year + 1, 1, 1))
    } else {
        None
    }
}

/// `n` months after `d`; the day is clamped to the last day of the month reached.
pub open spec fn add_months(d: Ymd, n: int) -> Option<Ymd> {
    let total = d.year * 12 + (d.month - 1) + n;
    let y = total / 12;
    let m = total % 12 + 1;
    if MIN_YEAR <= y <= MAX_YEAR {
        Some(ymd(y, m, if d.day <= days_in_month(y, m) { d.day } else { days_in_month(y, m) }))
    } else {
        None
    }
}

/// `n` days after `d` (before it when `n` is negative): the date whose day number is
/// `n` more than that of `d`, while such a date lies in the range.
pub open spec fn add_days(d: Ymd, n: int) -> Option<Ymd> {
    if day_number_in_range(day_number(d) + n) {
        Some(choose|r: Ymd| is_valid_date(r) && day_number(r) == day_number(d) + n)
    } else {
        None
    }
}

/// Each year adds its own length to the count of days before it.
pub proof fn lemma_year_step(y: int)
    ensures
        days_before_year(y + 1) == days_before_year(y) + days_in_year(y),
{
    let p = y - 1;
    assert(y / 4 - p / 4 == if y % 4 == 0 { 1int } else { 0int });
    assert(y / 100 - p / 100 == if y % 100 == 0 { 1int } else { 0int });
    assert(y / 400 - p / 400 == if y % 400 == 0 { 1int } else { 0int });
}

/// The days before a later year include the whole of an earlier one.
pub proof fn lemma_years_ordered(y1: int, y2: int)
    requires
        y1 < y2,
    ensures
        days_before_year(y1) + days_in_year(y1) <= days_before_year(y2),
    decreases y2 - y1,
{
    lemma_year_step(y1);
    if y1 + 1 < y2 {
        lemma_years_ordered(y1 + 1, y2);
        lemma_year_step(y1 + 1);
    }
}

/// The days before a later month of the same year include the whole of an earlier one, and
/// no month reaches past the end of its year.
pub proof fn lemma_months_ordered(y: int, m1: int, m2: int)
    requires
        1 <= m1 <= 12,
        1 <= m2 <= 12,
    ensures
        m1 < m2 ==> days_before_month(y, m1) + days_in_month(y, m1) <= days_before_month(y, m2),
        days_before_month(y, m1) + days_in_month(y, m1) <= days_in_year(y),
        days_before_month(y, m1) >= 0,
{
}

/// Of two valid dates, the earlier one has the smaller day number.
pub proof fn lemma_day_number_increasing(a: Ymd, b: Ymd)
    requires
        is_valid_date(a),
        is_valid_date(b),
        date_lt(a, b),
    ensures
        day_number(a) < day_number(b),
{
    lemma_months_ordered(a.year, a.month, b.month);
    lemma_months_ordered(b.year, b.month, a.month);
    if a.year < b.year {
        lemma_years_ordered(a.year, b.year);
    }
}

/// Different valid dates have different day numbers.
pub proof fn lemma_day_number_injective(a: Ymd, b: Ymd)
    requires
        is_valid_date(a),
        is_valid_date(b),
        day_number(a) == day_number(b),
    ensures
        a == b,
{
    if date_lt(a, b) {
        lemma_day_number_increasing(a, b);
    } else if date_lt(b, a) {
        lemma_day_number_increasing(b, a);
    }
}

/// A valid date is neither before the first date of the range nor after the last.
pub proof fn lemma_in_range(d: Ymd)
    requires
        is_valid_date(d),
    ensures
        day_number_in_range(day_number(d)),
{
    if date_lt(first_date(), d) {
        lemma_day_number_increasing(first_date(), d);
    }
    if date_lt(d, last_date()) {
        lemma_day_number_increasing(d, last_date());
    }
}

/// Each month of a year starts where the one before it ends.
pub proof fn lemma_month_step(y: int, m: int)
    requires
        1 <= m <= 12,
    ensures
        m < 12 ==> days_before_month(y, m + 1) == days_before_month(y, m) + days_in_month(y, m),
        m == 12 ==> days_before_month(y, m) + days_in_month(y, m) == days_in_year(y),
{
}

/// The day after a valid date is the next valid date, one day number later; only the last
/// date of the range has none.
pub proof fn lemma_next_day(x: Ymd)
    requires
        is_valid_date(x),
    ensures
        match next_day(x) {
            Some(n) => {
                &&& is_valid_date(n)
                &&& date_lt(x, n)
                &&& day_number(n) == day_number(x) + 1
                &&& forall|y: Ymd| is_valid_date(y) && date_lt(x, y) ==> date_le(n, y)
            },
            None => x == last_date(),
        },
{
    lemma_month_step(x.year, x.month);
    if x.day == days_in_month(x.year, x.month) && x.month == 12 {
        lemma_year_step(x.year);
    }
}

/// Every day number of the range belongs to a valid date.
pub proof fn lemma_date_with_number(k: int)
    requires
        day_number_in_range(k),
    ensures
        exists|r: Ymd| is_valid_date(r) && day_number(r) == k,
    decreases k - day_number(first_date()),
{
    if k == day_number(first_date()) {
        assert(is_valid_date(first_date()));
    } else {
        lemma_date_with_number(k - 1);
        let x = choose|r: Ymd| is_valid_date(r) && day_number(r) == k - 1;
        lemma_next_day(x);
        if next_day(x) is None {
            assert(day_number(x) == day_number(last_date()));
        }
        let n = next_day(x).unwrap();
        assert(is_valid_date(n) && day_number(n) == k);
    }
}

/// Adding days within the range gives the valid date with the sum as its day number.
pub proof fn lemma_add_days(d: Ymd, n: int)
    requires
        day_number_in_range(day_number(d) + n),
    ensures
        add_days(d, n) matches Some(r) && is_valid_date(r) && day_number(r) == day_number(d) + n,
{
    lemma_date_with_number(day_number(d) + n);
}

/// The index of the month of a date, counting from January of year 0.
pub open spec fn month_index(d: Ymd) -> int {
    d.year * 12 + d.month - 1
}

/// Adding months gives a valid date whose month index grows by the number of months.
pub proof fn lemma_add_months(d: Ymd, n: int)
    requires
        is_valid_date(d),
    ensures
        add_months(d, n) matches Some(r) ==> is_valid_date(r) && month_index(r) == month_index(d)
            + n && month_index(r) <= month_index(last_date()),
{
}

/// A valid date of the proleptic Gregorian calendar.
#[derive(Clone, Copy, Debug, PartialEq, Eq, Structural)]
pub struct Date {
    year: i32,
    month: u32,
    day: u32,
}

impl View for Date {
    type V = Ymd;

    closed spec fn view(&self) -> Ymd {
        ymd(self.year as int, self.month as int, self.day as int)
    }
}

/// The view of an optional date.
pub open spec fn opt_view(d: Option<Date>) -> Option<Ymd> {
    match d {
        Some(x) => Some(x@),
        None => None,
    }
}

impl Date {
    /// The invariant of the type: the three numbers name a valid date.
    #[verifier::type_invariant]
    pub closed spec fn holds_valid_date(self) -> bool {
        is_valid_date(ymd(self.year as int, self.month as int, self.day as int))
    }

    /// What the invariant of a date says of its view.
    pub proof fn lemma_valid(d: Date)
        requires
            d.holds_valid_date(),
        ensures
            is_valid_date(d@),
    {
    }

    /// The date with the given year, month and day, if it exists in the range.
    pub fn new(year: i32, month: u32, day: u32) -> (r: Option<Date>)
        ensures
            r is Some <==> is_valid_date(ymd(year as int, month as int, day as int)),
            r matches Some(x) ==> x@ == ymd(year as int, month as int, day as int),
    {
        from_ymd_opt(year, month, day)
    }

    pub fn year(&self) -> (r: i32)
        ensures
            r == self@.year,
    {
        self.year
    }

    pub fn month(&self) -> (r: u32)
        ensures
            r == self@.month,
    {
        self.month
    }

    pub fn day(&self) -> (r: u32)
        ensures
            r == self@.day,
    {
        self.day
    }

    /// Whether `self` comes strictly before `other`.
    pub fn is_before(&self, other: &Date) -> (r: bool)
        ensures
            r == date_lt(self@, other@),
    {
        self.year < other.year || (self.year == other.year && (self.month < other.month || (
        self.month == other.month && self.day < other.day)))
    }

    /// Whether `self` and `other` are the same date.
    pub fn same_as(&self, other: &Date) -> (r: bool)
        ensures
            r == (self@ == other@),
    {
        self.year == other.year && self.month == other.month && self.day == other.day
    }
}

/// `NaiveDate::from_ymd_opt`: the date exists exactly when the year lies in chrono's range
/// and the month and day name a day of the Gregorian calendar; the date keeps the three
/// numbers.
#[verifier::external_body]
fn from_ymd_opt(year: i32, month: u32, day: u32) -> (r: Option<Date>)
    ensures
        r is Some <==> is_valid_date(ymd(year as int, month as int, day as int)),
        r matches Some(x) ==> x@ == ymd(year as int, month as int, day as int),
{
    match NaiveDate::from_ymd_opt(year, month, day) {
        Some(nd) => Some(Date { year: nd.year(), month: nd.month(), day: nd.day() }),
        None => None,
    }
}


/// The result of `NaiveDate::parse_from_str` on a text and a format, as year, month and day.
pub uninterp spec fn parsed_date(text: Seq<char>, format: Seq<char>) -> Option<(int, int, int)>;

/// The day of the year of a date, from 1 for 1 January.
pub open spec fn day_of_year(d: Ymd) -> int {
    days_before_month(d.year, d.month) + d.day
}

/// The number of ISO 8601 weeks of year `y`: 53 where the year starts on a Thursday, or on a
/// Wednesday in a leap year; 52 otherwise.
pub open spec fn iso_weeks_in_year(y: int) -> int {
    let first = weekday_from_monday(ymd(y, 1, 1));
    if first == 4 || (is_leap_year(y) && first == 3) {
        53
    } else {
        52
    }
}

/// The ISO 8601 week of a date. Weeks start on Monday and week 1 holds the year's first
/// Thursday; the days before it belong to the last week of the year before, and the days
/// after the year's last week to week 1 of the next year.
pub open spec fn iso_week_of(d: Ymd) -> int {
    let w = (day_of_year(d) - weekday_from_monday(d) + 10) / 7;
    if w < 1 {
        iso_weeks_in_year(d.year - 1)
    } else if w > iso_weeks_in_year(d.year) {
        1
    } else {
        w
    }
}

/// `NaiveDate::parse_from_str(text, format)`: the date it parses, or `None` where it fails.
/// What it parses is not stated beyond the name `parsed_date`.
#[verifier::external_body]
pub(crate) fn parse_from_str(text: &str, format: &str) -> (r: Option<Date>)
    ensures
        r matches Some(x) ==> parsed_date(text@, format@) == Some(
            (x@.year, x@.month, x@.day),
        ),
        r is None <==> parsed_date(text@, format@) is None,
{
    match NaiveDate::parse_from_str(text, format) {
        Ok(nd) => Some(Date { year: nd.year(), month: nd.month(), day: nd.day() }),
        Err(_) => None,
    }
}

/// `NaiveDate::checked_add_signed(TimeDelta::days(n))`: the date `n` days later (earlier for a
/// negative `n`), or `None` when that date lies outside chrono's range. `TimeDelta::days`
/// panics for more than about 10^11 days, which `requires` leaves out.
#[verifier::external_body]
pub(crate) fn checked_add_signed_days(d: Date, n: i64) -> (r: Option<Date>)
    requires
        -100_000_000_000 <= n <= 100_000_000_000,
    ensures
        opt_view(r) == add_days(d@, n as int),
        r is Some <==> day_number_in_range(day_number(d@) + n),
        r matches Some(x) ==> day_number(x@) == day_number(d@) + n,
{
    let nd = NaiveDate::from_ymd_opt(d.year, d.month, d.day).unwrap();
    match nd.checked_add_signed(TimeDelta::days(n)) {
        Some(x) => Some(Date { year: x.year(), month: x.month(), day: x.day() }),
        None => None,
    }
}

/// `NaiveDate::checked_add_months(Months::new(n))`: the same day `n` months later, clamped to
/// the last day of a shorter month, or `None` when the year leaves chrono's range.
#[verifier::external_body]
pub(crate) fn checked_add_months(d: Date, n: u32) -> (r: Option<Date>)
    ensures
        opt_view(r) == add_months(d@, n as int),
{
    let nd = NaiveDate::from_ymd_opt(d.year, d.month, d.day).unwrap();
    match nd.checked_add_months(chrono::Months::new(n)) {
        Some(x) => Some(Date { year: x.year(), month: x.month(), day: x.day() }),
        None => None,
    }
}

/// `NaiveDate::succ_opt`: the next day, or `None` after the last date of chrono's range.
#[verifier::external_body]
pub(crate) fn succ_opt(d: Date) -> (r: Option<Date>)
    ensures
        opt_view(r) == next_day(d@),
{
    let nd = NaiveDate::from_ymd_opt(d.year, d.month, d.day).unwrap();
    match nd.succ_opt() {
        Some(x) => Some(Date { year: x.year(), month: x.month(), day: x.day() }),
        None => None,
    }
}

/// `a.signed_duration_since(b).num_days()`: the number of days from `b` to `a`.
#[verifier::external_body]
pub(crate) fn days_since(a: Date, b: Date) -> (r: i64)
    ensures
        r == day_number(a@) - day_number(b@),
{
    let na = NaiveDate::from_ymd_opt(a.year, a.month, a.day).unwrap();
    let nb = NaiveDate::from_ymd_opt(b.year, b.month, b.day).unwrap();
    na.signed_duration_since(nb).num_days()
}

/// `weekday().number_from_monday()`: 1 for Monday up to 7 for Sunday.
#[verifier::external_body]
pub(crate) fn weekday_number(d: Date) -> (r: u32)
    ensures
        r == weekday_from_monday(d@),
{
    let nd = NaiveDate::from_ymd_opt(d.year, d.month, d.day).unwrap();
    nd.weekday().number_from_monday()
}

/// `iso_week().week()`: the week of the date's ISO 8601 week date, as chrono documents it,
/// stated by `iso_week_of`.
#[verifier::external_body]
pub(crate) fn iso_week(d: Date) -> (r: u32)
    ensures
        r == iso_week_of(d@),
{
    let nd = NaiveDate::from_ymd_opt(d.year, d.month, d.day).unwrap();
    nd.iso_week().week()
}

/// `Utc::now().date_naive()`: today's date in UTC. Nothing is stated of which date it is.
#[verifier::external_body]
pub(crate) fn today_utc() -> (r: Date) {
    let x = Utc::now().date_naive();
    Date { year: x.year(), month: x.month(), day: x.day() }
}

} // verus!
