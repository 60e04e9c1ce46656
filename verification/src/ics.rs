//! The iCalendar data that the calendar logic reads, as the `ical` crate parses it.
use vstd::prelude::*;

use ical::IcalParser;
use std::io::Cursor;

verus! {

/// The view of a property: its name and its value, if it has one.
pub type PropertyView = (Seq<char>, Option<Seq<char>>);

/// A property of a calendar component: `NAME:value`.
pub struct IcalProperty {
    pub name: String,
    pub value: Option<String>,
}

/// A `VEVENT` component: its properties in the order they appear.
pub struct IcalEvent {
    pub properties: Vec<IcalProperty>,
}

/// A `VCALENDAR`: its events in the order they appear.
pub struct IcalCalendar {
    pub events: Vec<IcalEvent>,
}

pub open spec fn opt_string_view(v: Option<String>) -> Option<Seq<char>> {
    match v {
        Some(s) => Some(s@),
        None => None,
    }
}

impl View for IcalProperty {
    type V = PropertyView;

    open spec fn view(&self) -> PropertyView {
        (self.name@, opt_string_view(self.value))
    }
}

impl View for IcalEvent {
    type V = Seq<PropertyView>;

    open spec fn view(&self) -> Seq<PropertyView> {
        self.properties@.map_values(|p: IcalProperty| p@)
    }
}

impl View for IcalCalendar {
    type V = Seq<Seq<PropertyView>>;

    open spec fn view(&self) -> Seq<Seq<PropertyView>> {
        self.events@.map_values(|e: IcalEvent| e@)
    }
}

pub open spec fn calendars_view(v: Seq<IcalCalendar>) -> Seq<Seq<Seq<PropertyView>>> {
    v.map_values(|c: IcalCalendar| c@)
}

/// What `ical::IcalParser` reads from a text: the properties of the events of each calendar
/// up to the first calendar it fails on, or the message of that failure.
pub uninterp spec fn parsed_calendars(text: Seq<char>) -> Result<
    Seq<Seq<Seq<PropertyView>>>,
    Seq<char>,
>;

/// `ical::IcalParser` over the bytes of `text`: the calendars it yields, each reduced to the
/// names and values of its events' properties, or the display text of the first error it
/// yields. What it parses is not stated beyond the name `parsed_calendars`.
#[verifier::external_body]
pub(crate) fn parse_calendars(text: &str) -> (r: Result<Vec<IcalCalendar>, String>)
    ensures
        match (r, parsed_calendars(text@)) {
            (Ok(v), Ok(c)) => calendars_view(v@) == c,
            (Err(e), Err(m)) => e@ == m,
            _ => false,
        },
{
    IcalParser::new(Cursor::new(text.as_bytes())).map(|calendar| {
        calendar.map(|cal| IcalCalendar {
            events: cal.events.into_iter().map(|event| IcalEvent {
                properties: event.properties.into_iter().map(|p| IcalProperty {
                    name: p.name,
                    value: p.value,
                }).collect(),
            }).collect(),
        }).map_err(|error| error.to_string())
    }).collect()
}

} // verus!
