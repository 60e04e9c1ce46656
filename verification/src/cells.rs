//! What the rendered calendars show in a cell: the summaries of the events of its date.
use vstd::prelude::*;

use crate::calendar::{entries_view, on_date};
use crate::date::{ymd, Date, Ymd};
use crate::i18n::StringsView;

verus! {

/// The summaries of the entries on date `d`, in the order of the entries.
///
/// The layouts gather a cell's entries with one pass over the entries per cell rather than
/// with a `BTreeMap` from (day, month, year) to summaries built up front. Both give each
/// date's summaries in entry order; the map would be filled through `entry().or_default()`,
/// which vstd does not specify, while the pass is this filter directly.
pub open spec fn summaries_on(ev: Seq<(Ymd, Seq<char>)>, d: Ymd) -> Seq<Seq<char>> {
    ev.filter(on_date(d)).map_values(|e: (Ymd, Seq<char>)| e.1)
}

/// The name of month `m`; none outside 1 to 12.
pub open spec fn month_name_of(s: StringsView, m: int) -> Seq<char> {
    if 1 <= m <= 12 {
        s.months[m - 1]
    } else {
        seq![]
    }
}

/// Taking one more entry adds its summary where it lies on `d`.
pub proof fn lemma_summaries_step(ev: Seq<(Ymd, Seq<char>)>, i: int, d: Ymd)
    requires
        0 <= i < ev.len(),
    ensures
        summaries_on(ev.take(i + 1), d) == if ev[i].0 == d {
            summaries_on(ev.take(i), d).push(ev[i].1)
        } else {
            summaries_on(ev.take(i), d)
        },
{
    assert(ev.take(i + 1) =~= ev.take(i) + seq![ev[i]]);
    Seq::filter_distributes_over_add(ev.take(i), seq![ev[i]], on_date(d));
    reveal_with_fuel(Seq::filter, 2);
    if ev[i].0 == d {
        assert(seq![ev[i]].filter(on_date(d)) =~= seq![ev[i]]);
        assert(summaries_on(ev.take(i + 1), d) =~= summaries_on(ev.take(i), d).push(ev[i].1));
    } else {
        assert(seq![ev[i]].filter(on_date(d)) =~= Seq::<(Ymd, Seq<char>)>::empty());
        assert(summaries_on(ev.take(i + 1), d) =~= summaries_on(ev.take(i), d));
    }
}

/// Whether an entry lies on the date with the given year, month and day.
pub fn entry_on(entry: &(Date, String), year: i32, month: u32, day: u32) -> (r: bool)
    ensures
        r == (entry.0@ == ymd(year as int, month as int, day as int)),
{
    entry.0.year() == year && entry.0.month() == month && entry.0.day() == day
}


/// `a` and `b` give the same summaries, in the same order, on every day of the listed months.
pub open spec fn same_cells(
    a: Seq<(Ymd, Seq<char>)>,
    b: Seq<(Ymd, Seq<char>)>,
    months: Seq<(i32, u32)>,
) -> bool {
    forall|j: int, day: int|
        0 <= j < months.len() ==> #[trigger] summaries_on(
            a,
            ymd(months[j].0 as int, months[j].1 as int, day),
        ) == summaries_on(b, ymd(months[j].0 as int, months[j].1 as int, day))
}

/// An entry whose date lies outside the listed months leaves every cell as it was.
pub proof fn lemma_outside_entry_same_cells(
    a: Seq<(Ymd, Seq<char>)>,
    e: (Ymd, Seq<char>),
    b: Seq<(Ymd, Seq<char>)>,
    months: Seq<(i32, u32)>,
)
    requires
        forall|j: int|
            0 <= j < months.len() ==> !((#[trigger] months[j]).0 as int == e.0.year
                && months[j].1 as int == e.0.month),
    ensures
        same_cells(a + seq![e] + b, a + b, months),
{
    assert forall|j: int, day: int| 0 <= j < months.len() implies #[trigger] summaries_on(
        a + seq![e] + b,
        ymd(months[j].0 as int, months[j].1 as int, day),
    ) == summaries_on(a + b, ymd(months[j].0 as int, months[j].1 as int, day)) by {
        let d = ymd(months[j].0 as int, months[j].1 as int, day);
        let p = on_date(d);
        Seq::filter_distributes_over_add(a + seq![e], b, p);
        Seq::filter_distributes_over_add(a, seq![e], p);
        Seq::filter_distributes_over_add(a, b, p);
        assert(seq![e].filter(p) =~= Seq::<(Ymd, Seq<char>)>::empty()) by {
            reveal_with_fuel(Seq::filter, 2);
        }
        assert((a + seq![e] + b).filter(p) =~= (a + b).filter(p));
    }
}

/// Entries that agree date by date, each date's entries in the same order, give the same
/// cells.
pub proof fn lemma_same_dates_same_cells(
    a: Seq<(Ymd, Seq<char>)>,
    b: Seq<(Ymd, Seq<char>)>,
    months: Seq<(i32, u32)>,
)
    requires
        forall|d: Ymd| #[trigger] a.filter(on_date(d)) == b.filter(on_date(d)),
    ensures
        same_cells(a, b, months),
{
    assert forall|j: int, day: int| 0 <= j < months.len() implies #[trigger] summaries_on(
        a,
        ymd(months[j].0 as int, months[j].1 as int, day),
    ) == summaries_on(b, ymd(months[j].0 as int, months[j].1 as int, day)) by {
        let d = ymd(months[j].0 as int, months[j].1 as int, day);
        assert(a.filter(on_date(d)) == b.filter(on_date(d)));
    }
}

} // verus!
