//! The calendars the program renders: the current year, or the current month and the two
//! after it, as markdown or HTML.
use vstd::prelude::*;

use std::ops::RangeInclusive;
use vstd::std_specs::range::RangeInclusiveView;

use crate::calendar::{
    all_entries, checked_events, entries_view, is_stable_date_sort, parse_failure,
    some_event_repeats_forever,
};
use crate::date::{is_valid_date, today_utc, Date, Ymd};
use crate::html::{calendar_html, html_page};
use crate::i18n::Strings;
use crate::ics::{parsed_calendars, PropertyView};
use crate::markdown::{calendar_markdown, markdown_table};

verus! {

/// The twelve months of a year.
pub open spec fn months_of_year(year: int) -> Seq<(i32, u32)> {
    Seq::new(12, |i: int| (year as i32, (i + 1) as u32))
}

/// A month and the two after it, into the next year after December.
pub open spec fn three_months_from(year: int, month: int) -> Seq<(i32, u32)> {
    Seq::new(
        3,
        |i: int|
            if month + i <= 12 {
                (year as i32, (month + i) as u32)
            } else {
                ((year + 1) as i32, (month + i - 12) as u32)
            },
    )
}

pub open spec fn years_view(first: int, last: int) -> RangeInclusiveView<i32> {
    RangeInclusiveView { start: first as i32, end: last as i32, exhausted: false }
}

/// The rendering of the entries of an iCalendar text in the given years and months, with
/// `render` laying out the sorted entries; `None` where an event would repeat its start date
/// without end.
pub open spec fn rendered(
    text: Seq<char>,
    years: RangeInclusiveView<i32>,
    r: Option<Result<String, String>>,
    render: spec_fn(Seq<(Ymd, Seq<char>)>) -> Seq<char>,
) -> bool {
    match parsed_calendars(text) {
        Err(msg) => r matches Some(Err(e)) && e@ == parse_failure(msg),
        Ok(cals) => if some_event_repeats_forever(cals, years) {
            r is None
        } else {
            r matches Some(Ok(out)) && exists|ev: Seq<(Ymd, Seq<char>)>|
                is_stable_date_sort(ev, all_entries(cals, years)) && out@ == render(ev)
        },
    }
}

/// The months of a year.
pub fn year_months(year: i32) -> (r: Vec<(i32, u32)>)
    ensures
        r@ == months_of_year(year as int),
{
    let mut months: Vec<(i32, u32)> = Vec::new();
    let mut m: u32 = 1;
    while m <= 12
        invariant
            1 <= m <= 13,
            months@ == months_of_year(year as int).take(m - 1),
        decreases 13 - m,
    {
        months.push((year, m));
        assert(months@ =~= months_of_year(year as int).take(m as int));
        m += 1;
    }
    assert(months_of_year(year as int).take(12) =~= months_of_year(year as int));
    months
}

/// A month and the two after it.
pub fn month3_months(year: i32, start_month: u32) -> (r: Vec<(i32, u32)>)
    requires
        1 <= start_month <= 12,
        year < i32::MAX,
    ensures
        r@ == three_months_from(year as int, start_month as int),
{
    let mut months: Vec<(i32, u32)> = Vec::new();
    let mut offset: u32 = 0;
    while offset < 3
        invariant
            offset <= 3,
            1 <= start_month <= 12,
            year < i32::MAX,
            months@ == three_months_from(year as int, start_month as int).take(offset as int),
        decreases 3 - offset,
    {
        let month = start_month + offset;
        if month <= 12 {
            months.push((year, month));
        } else {
            months.push((year + 1, month - 12));
        }
        assert(months@ =~= three_months_from(year as int, start_month as int).take(offset + 1));
        offset += 1;
    }
    assert(three_months_from(year as int, start_month as int).take(3) =~= three_months_from(
        year as int,
        start_month as int,
    ));
    months
}

/// The markdown calendar of the year `year`.
pub fn year_markdown_for(ical_text: &str, strings: &Strings, year: i32) -> (r: Option<
    Result<String, String>,
>)
    ensures
        rendered(
            ical_text@,
            years_view(year as int, year as int),
            r,
            |ev: Seq<(Ymd, Seq<char>)>| markdown_table(ev, months_of_year(year as int), strings@),
        ),
{
    let months = year_months(year);
    match checked_events(ical_text, year..=year) {
        None => None,
        Some(Err(e)) => Some(Err(e)),
        Some(Ok(events)) => {
            let out = calendar_markdown(events.as_slice(), months.as_slice(), strings);
            proof {
                if let Ok(cals) = parsed_calendars(ical_text@) {
                    assert(is_stable_date_sort(
                        entries_view(events@),
                        all_entries(cals, years_view(year as int, year as int)),
                    ));
                }
            }
            Some(Ok(out))
        },
    }
}

/// The HTML calendar of the year `year`.
pub fn year_html_for(ical_text: &str, strings: &Strings, year: i32) -> (r: Option<
    Result<String, String>,
>)
    ensures
        rendered(
            ical_text@,
            years_view(year as int, year as int),
            r,
            |ev: Seq<(Ymd, Seq<char>)>| html_page(ev, months_of_year(year as int), strings@),
        ),
{
    let months = year_months(year);
    match checked_events(ical_text, year..=year) {
        None => None,
        Some(Err(e)) => Some(Err(e)),
        Some(Ok(events)) => {
            let out = calendar_html(events.as_slice(), months.as_slice(), strings);
            proof {
                if let Ok(cals) = parsed_calendars(ical_text@) {
                    assert(is_stable_date_sort(
                        entries_view(events@),
                        all_entries(cals, years_view(year as int, year as int)),
                    ));
                }
            }
            Some(Ok(out))
        },
    }
}

/// The last year of the three months from `month` of `year`.
pub open spec fn three_months_last_year(year: int, month: int) -> int {
    if month + 2 <= 12 {
        year
    } else {
        year + 1
    }
}

/// The markdown calendar of month `month` of `year` and the two months after it.
pub fn month3_markdown_for(ical_text: &str, strings: &Strings, year: i32, month: u32) -> (r: Option<
    Result<String, String>,
>)
    requires
        1 <= month <= 12,
        year < i32::MAX,
    ensures
        rendered(
            ical_text@,
            years_view(year as int, three_months_last_year(year as int, month as int)),
            r,
            |ev: Seq<(Ymd, Seq<char>)>|
                markdown_table(ev, three_months_from(year as int, month as int), strings@),
        ),
{
    let months = month3_months(year, month);
    let years = months[0].0..=months[months.len() - 1].0;
    match checked_events(ical_text, years) {
        None => None,
        Some(Err(e)) => Some(Err(e)),
        Some(Ok(events)) => {
            let out = calendar_markdown(events.as_slice(), months.as_slice(), strings);
            proof {
                if let Ok(cals) = parsed_calendars(ical_text@) {
                    assert(is_stable_date_sort(
                        entries_view(events@),
                        all_entries(
                            cals,
                            years_view(year as int, three_months_last_year(year as int, month as int)),
                        ),
                    ));
                }
            }
            Some(Ok(out))
        },
    }
}

/// The HTML calendar of month `month` of `year` and the two months after it.
pub fn month3_html_for(ical_text: &str, strings: &Strings, year: i32, month: u32) -> (r: Option<
    Result<String, String>,
>)
    requires
        1 <= month <= 12,
        year < i32::MAX,
    ensures
        rendered(
            ical_text@,
            years_view(year as int, three_months_last_year(year as int, month as int)),
            r,
            |ev: Seq<(Ymd, Seq<char>)>|
                html_page(ev, three_months_from(year as int, month as int), strings@),
        ),
{
    let months = month3_months(year, month);
    let years = months[0].0..=months[months.len() - 1].0;
    match checked_events(ical_text, years) {
        None => None,
        Some(Err(e)) => Some(Err(e)),
        Some(Ok(events)) => {
            let out = calendar_html(events.as_slice(), months.as_slice(), strings);
            proof {
                if let Ok(cals) = parsed_calendars(ical_text@) {
                    assert(is_stable_date_sort(
                        entries_view(events@),
                        all_entries(
                            cals,
                            years_view(year as int, three_months_last_year(year as int, month as int)),
                        ),
                    ));
                }
            }
            Some(Ok(out))
        },
    }
}

/// Renders the current year's calendar (in UTC) as markdown.
pub fn year_markdown(ical_text: &str, strings: &Strings) -> (r: Option<Result<String, String>>)
    ensures
        exists|today: Ymd|
            is_valid_date(today) && rendered(
                ical_text@,
                years_view(today.year, today.year),
                r,
                |ev: Seq<(Ymd, Seq<char>)>| markdown_table(ev, months_of_year(today.year), strings@),
            ),
{
    let today = today_utc();
    proof {
        use_type_invariant(&today);
        Date::lemma_valid(today);
    }
    year_markdown_for(ical_text, strings, today.year())
}

/// Renders the current year's calendar (in UTC) as HTML.
pub fn year_html(ical_text: &str, strings: &Strings) -> (r: Option<Result<String, String>>)
    ensures
        exists|today: Ymd|
            is_valid_date(today) && rendered(
                ical_text@,
                years_view(today.year, today.year),
                r,
                |ev: Seq<(Ymd, Seq<char>)>| html_page(ev, months_of_year(today.year), strings@),
            ),
{
    let today = today_utc();
    proof {
        use_type_invariant(&today);
        Date::lemma_valid(today);
    }
    year_html_for(ical_text, strings, today.year())
}

/// Renders the current month (in UTC) and the two after it as markdown.
pub fn month3_markdown(ical_text: &str, strings: &Strings) -> (r: Option<Result<String, String>>)
    ensures
        exists|today: Ymd|
            is_valid_date(today) && rendered(
                ical_text@,
                years_view(today.year, three_months_last_year(today.year, today.month)),
                r,
                |ev: Seq<(Ymd, Seq<char>)>|
                    markdown_table(ev, three_months_from(today.year, today.month), strings@),
            ),
{
    let today = today_utc();
    proof {
        use_type_invariant(&today);
        Date::lemma_valid(today);
    }
    month3_markdown_for(ical_text, strings, today.year(), today.month())
}

/// Renders the current month (in UTC) and the two after it as HTML.
pub fn month3_html(ical_text: &str, strings: &Strings) -> (r: Option<Result<String, String>>)
    ensures
        exists|today: Ymd|
            is_valid_date(today) && rendered(
                ical_text@,
                years_view(today.year, three_months_last_year(today.year, today.month)),
                r,
                |ev: Seq<(Ymd, Seq<char>)>|
                    html_page(ev, three_months_from(today.year, today.month), strings@),
            ),
{
    let today = today_utc();
    proof {
        use_type_invariant(&today);
        Date::lemma_valid(today);
    }
    month3_html_for(ical_text, strings, today.year(), today.month())
}

} // verus!
