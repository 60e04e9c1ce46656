//! Month and weekday names in the languages the calendar is rendered in.
use vstd::prelude::*;

use crate::text::{chars_of, range_is};

verus! {

/// The words of one language.
pub struct Strings {
    pub months: [&'static str; 12],
    pub weekdays: [&'static str; 7],
    pub week: &'static str,
}

/// The view of the words of a language.
pub struct StringsView {
    pub months: Seq<Seq<char>>,
    pub weekdays: Seq<Seq<char>>,
    pub week: Seq<char>,
}

impl View for Strings {
    type V = StringsView;

    open spec fn view(&self) -> StringsView {
        StringsView {
            months: self.months@.map_values(|s: &'static str| s@),
            weekdays: self.weekdays@.map_values(|s: &'static str| s@),
            week: self.week@,
        }
    }
}

pub open spec fn english() -> StringsView {
    StringsView {
        months: seq![
            "January"@,
            "February"@,
            "March"@,
            "April"@,
            "May"@,
            "June"@,
            "July"@,
            "August"@,
            "September"@,
            "October"@,
            "November"@,
            "December"@,
        ],
        weekdays: seq!["Mo"@, "Tu"@, "We"@, "Th"@, "Fr"@, "Sa"@, "Su"@],
        week: "Week"@,
    }
}

pub open spec fn danish() -> StringsView {
    StringsView {
        months: seq![
            "Januar"@,
            "Februar"@,
            "Marts"@,
            "April"@,
            "Maj"@,
            "Juni"@,
            "Juli"@,
            "August"@,
            "September"@,
            "Oktober"@,
            "November"@,
            "December"@,
        ],
        weekdays: seq!["Ma"@, "Ti"@, "On"@, "To"@, "Fr"@, "Lø"@, "Sø"@],
        week: "Uge"@,
    }
}

impl Strings {
    /// The English words.
    pub fn en() -> (r: Self)
        ensures
            r@ == english(),
    {
        let r = Self {
            months: [
                "January",
                "February",
                "March",
                "April",
                "May",
                "June",
                "July",
                "August",
                "September",
                "October",
                "November",
                "December",
            ],
            weekdays: ["Mo", "Tu", "We", "Th", "Fr", "Sa", "Su"],
            week: "Week",
        };
        assert(r@.months =~= english().months);
        assert(r@.weekdays =~= english().weekdays);
        r
    }
}

impl Default for Strings {
    fn default() -> (r: Self)
        ensures
            r@ == english(),
    {
        Self::en()
    }
}

/// The words of a language code: Danish for `da`, English for any other.
pub fn get(locale: &str) -> (r: Strings)
    ensures
        r@ == if locale@ == "da"@ {
            danish()
        } else {
            english()
        },
{
    let cs = chars_of(locale);
    assert(cs@.subrange(0, cs@.len() as int) =~= locale@);
    if range_is(&cs, 0, cs.len(), "da") {
        let r = Strings {
            months: [
                "Januar",
                "Februar",
                "Marts",
                "April",
                "Maj",
                "Juni",
                "Juli",
                "August",
                "September",
                "Oktober",
                "November",
                "December",
            ],
            weekdays: ["Ma", "Ti", "On", "To", "Fr", "Lø", "Sø"],
            week: "Uge",
        };
        assert(r@.months =~= danish().months);
        assert(r@.weekdays =~= danish().weekdays);
        r
    } else {
        Strings::en()
    }
}

} // verus!
