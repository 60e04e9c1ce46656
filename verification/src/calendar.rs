//! Events of an iCalendar feed: dates, recurrence rules and the days each event covers.
use vstd::prelude::*;

use std::ops::RangeInclusive;
use vstd::std_specs::range::RangeInclusiveView;

use crate::date::{
    add_days, add_months, checked_add_months, days_since, first_date, succ_opt, checked_add_signed_days, date_le, date_lt, day_number,
    is_valid_date, last_date, lemma_add_days, lemma_add_months, lemma_day_number_increasing, lemma_day_number_injective, days_in_month,
    lemma_in_range, lemma_next_day, month_index, next_day, opt_view, parse_from_str, parsed_date, ymd, Date, Ymd,
};
use crate::ics::{opt_string_view, parse_calendars, parsed_calendars, IcalEvent, PropertyView};
use crate::text::{
    before_char, chars_of, find_char, find_in, lemma_find_char, parse_unsigned, parse_unsigned_in, range_is,
    push_str, split_on, string_of,
};

verus! {

/// How often a recurring event repeats.
#[derive(Clone, Copy, Debug, PartialEq, Eq, Structural)]
pub enum Frequency {
    Daily,
    Weekly,
    Monthly,
    Yearly,
}

/// An `RRULE` value: the frequency, every how many periods, and when the repetition ends.
pub struct RecurrenceRule {
    pub frequency: Frequency,
    pub interval: u32,
    pub count: Option<usize>,
    pub until: Option<Date>,
}

/// The view of a recurrence rule.
pub struct RuleView {
    pub frequency: Frequency,
    pub interval: int,
    pub count: Option<int>,
    pub until: Option<Ymd>,
}

pub open spec fn opt_usize_view(v: Option<usize>) -> Option<int> {
    match v {
        Some(n) => Some(n as int),
        None => None,
    }
}

impl View for RecurrenceRule {
    type V = RuleView;

    open spec fn view(&self) -> RuleView {
        RuleView {
            frequency: self.frequency,
            interval: self.interval as int,
            count: opt_usize_view(self.count),
            until: opt_view(self.until),
        }
    }
}

/// The date an iCalendar date value names: the part before any `T` read as `%Y%m%d`.
pub open spec fn ical_date(value: Seq<char>) -> Option<Ymd> {
    match parsed_date(before_char(value, 'T'), "%Y%m%d"@) {
        Some((y, m, d)) => Some(ymd(y, m, d)),
        None => None,
    }
}

/// The date part of an iCalendar date or date-time value, such as `20260110` or
/// `20260110T090000Z`.
pub fn parse_ical_date(value: &str) -> (r: Option<Date>)
    ensures
        opt_view(r) == ical_date(value@),
{
    let cs = chars_of(value);
    assert(cs@.subrange(0, cs@.len() as int) =~= value@);
    let end = match find_in(&cs, 0, cs.len(), 'T') {
        Some(i) => i,
        None => cs.len(),
    };
    let date_value = string_of(&cs, 0, end);
    proof {
        match find_char(value@, 'T') {
            Some(i) => {
                assert(end == i);
                assert(value@.take(i) =~= cs@.subrange(0, end as int));
            },
            None => {
                assert(end == value@.len());
            },
        }
    }
    assert(date_value@ =~= before_char(value@, 'T'));
    parse_from_str(date_value.as_str(), "%Y%m%d")
}

/// The last day of an event that starts on `start`, from its `DTEND` value: an end date
/// without a time is exclusive, so the day before it; one with a time is the day itself.
/// Without an end, or with one that does not parse, the event lasts its first day.
pub open spec fn event_end(start: Ymd, value: Option<Seq<char>>) -> Ymd {
    match value {
        None => start,
        Some(v) => match ical_date(v) {
            None => start,
            Some(end) => if find_char(v, 'T') is Some {
                end
            } else {
                match add_days(end, -1) {
                    Some(x) => x,
                    None => end,
                }
            },
        },
    }
}

fn parse_event_end(start: Date, value: Option<&str>) -> (r: Date)
    ensures
        r@ == event_end(start@, match value {
            Some(v) => Some(v@),
            None => None,
        }),
{
    let value = match value {
        None => {
            return start;
        },
        Some(v) => v,
    };
    let end = match parse_ical_date(value) {
        None => {
            return start;
        },
        Some(e) => e,
    };
    let cs = chars_of(value);
    assert(cs@.subrange(0, cs@.len() as int) =~= value@);
    if find_in(&cs, 0, cs.len(), 'T').is_some() {
        end
    } else {
        match checked_add_signed_days(end, -1) {
            Some(x) => x,
            None => end,
        }
    }
}

/// What the parts of an `RRULE` value read so far have set.
pub struct RuleParts {
    pub frequency: Option<Frequency>,
    pub interval: int,
    pub count: Option<int>,
    pub until: Option<Ymd>,
}

pub open spec fn frequency_named(value: Seq<char>) -> Option<Frequency> {
    if value == "DAILY"@ {
        Some(Frequency::Daily)
    } else if value == "WEEKLY"@ {
        Some(Frequency::Weekly)
    } else if value == "MONTHLY"@ {
        Some(Frequency::Monthly)
    } else if value == "YEARLY"@ {
        Some(Frequency::Yearly)
    } else {
        None
    }
}

/// The effect of one `KEY=value` part; `None` where the whole rule is rejected: a part
/// without `=`, an unknown frequency, or an interval that is no `u32`. A count that is no
/// `usize` clears the count, an end date that does not parse clears the end date, and other
/// keys are ignored.
pub open spec fn rule_part_step(st: RuleParts, part: Seq<char>) -> Option<RuleParts> {
    match find_char(part, '=') {
        None => None,
        Some(i) => {
            let key = part.take(i);
            let value = part.skip(i + 1);
            if key == "FREQ"@ {
                match frequency_named(value) {
                    Some(f) => Some(RuleParts { frequency: Some(f), ..st }),
                    None => None,
                }
            } else if key == "INTERVAL"@ {
                match parse_unsigned(value, u32::MAX as int) {
                    Some(n) => Some(RuleParts { interval: n, ..st }),
                    None => None,
                }
            } else if key == "COUNT"@ {
                Some(RuleParts { count: parse_unsigned(value, usize::MAX as int), ..st })
            } else if key == "UNTIL"@ {
                Some(RuleParts { until: ical_date(value), ..st })
            } else {
                Some(st)
            }
        },
    }
}

/// The parts read one after the other.
pub open spec fn rule_parts_read(st: RuleParts, parts: Seq<Seq<char>>) -> Option<RuleParts>
    decreases parts.len(),
{
    if parts.len() == 0 {
        Some(st)
    } else {
        match rule_part_step(st, parts[0]) {
            Some(next) => rule_parts_read(next, parts.drop_first()),
            None => None,
        }
    }
}

pub open spec fn no_rule_parts() -> RuleParts {
    RuleParts { frequency: None, interval: 1, count: None, until: None }
}

/// The rule an `RRULE` value states: its `;`-separated parts read in order, with an interval
/// of 1 unless one is given; there is none without a frequency.
pub open spec fn rule_of(text: Seq<char>) -> Option<RuleView> {
    match rule_parts_read(no_rule_parts(), split_on(text, ';')) {
        Some(st) => match st.frequency {
            Some(f) => Some(
                RuleView { frequency: f, interval: st.interval, count: st.count, until: st.until },
            ),
            None => None,
        },
        None => None,
    }
}

/// The first piece of `split_on` ends at the first separator, and the rest is the split of
/// what follows it.
pub proof fn lemma_split_on_first(s: Seq<char>, sep: char)
    ensures
        match find_char(s, sep) {
            Some(i) => split_on(s, sep) == seq![s.take(i)] + split_on(s.skip(i + 1), sep),
            None => split_on(s, sep) == seq![s],
        },
    decreases s.len(),
{
    if s.len() == 0 {
        assert(s =~= Seq::<char>::empty());
    } else {
        let t = s.drop_first();
        lemma_split_on_first(t, sep);
        lemma_find_char(t, sep);
        let rest = split_on(t, sep);
        if s[0] == sep {
            assert(find_char(s, sep) == Some(0int));
            assert(s.take(0) =~= Seq::<char>::empty());
            assert(s.skip(1) =~= t);
        } else {
            match find_char(t, sep) {
                Some(i) => {
                    assert(find_char(s, sep) == Some(i + 1));
                    let first = t.take(i);
                    let later = split_on(t.skip(i + 1), sep);
                    assert(rest == seq![first] + later);
                    assert(rest[0] == first);
                    assert(rest.drop_first() =~= later);
                    assert(s.take(i + 1) =~= seq![s[0]] + first);
                    assert(s.skip(i + 2) =~= t.skip(i + 1));
                    assert(split_on(s, sep) =~= seq![s.take(i + 1)] + split_on(s.skip(i + 2), sep));
                },
                None => {
                    assert(find_char(s, sep) is None);
                    assert(rest == seq![t]);
                    assert(rest[0] == t);
                    assert(rest.drop_first() =~= Seq::<Seq<char>>::empty());
                    assert(s =~= seq![s[0]] + t);
                    assert(split_on(s, sep) =~= seq![s]);
                },
            }
        }
    }
}

fn frequency_in(cs: &Vec<char>, from: usize, to: usize) -> (r: Option<Frequency>)
    requires
        from <= to <= cs.len(),
    ensures
        r == frequency_named(cs@.subrange(from as int, to as int)),
{
    if range_is(cs, from, to, "DAILY") {
        Some(Frequency::Daily)
    } else if range_is(cs, from, to, "WEEKLY") {
        Some(Frequency::Weekly)
    } else if range_is(cs, from, to, "MONTHLY") {
        Some(Frequency::Monthly)
    } else if range_is(cs, from, to, "YEARLY") {
        Some(Frequency::Yearly)
    } else {
        None
    }
}

/// Reads the `KEY=value` part `cs[from..to]` into the fields read so far.
fn read_rule_part(
    cs: &Vec<char>,
    from: usize,
    to: usize,
    frequency: &mut Option<Frequency>,
    interval: &mut u32,
    count: &mut Option<usize>,
    until: &mut Option<Date>,
) -> (ok: bool)
    requires
        from <= to <= cs.len(),
    ensures
        ({
            let st = RuleParts {
                frequency: *old(frequency),
                interval: *old(interval) as int,
                count: opt_usize_view(*old(count)),
                until: opt_view(*old(until)),
            };
            match rule_part_step(st, cs@.subrange(from as int, to as int)) {
                Some(next) => ok && next == RuleParts {
                    frequency: *final(frequency),
                    interval: *final(interval) as int,
                    count: opt_usize_view(*final(count)),
                    until: opt_view(*final(until)),
                },
                None => !ok,
            }
        }),
{
    let ghost part = cs@.subrange(from as int, to as int);
    let ghost st = RuleParts {
        frequency: *old(frequency),
        interval: *old(interval) as int,
        count: opt_usize_view(*old(count)),
        until: opt_view(*old(until)),
    };
    let eq = match find_in(cs, from, to, '=') {
        Some(i) => i,
        None => {
            return false;
        },
    };
    let ghost k = eq - from;
    let ghost key = part.take(k);
    let ghost value = part.skip(k + 1);
    assert(key =~= cs@.subrange(from as int, eq as int));
    assert(value =~= cs@.subrange(eq + 1, to as int));
    if range_is(cs, from, eq, "FREQ") {
        assert(key == "FREQ"@);
        match frequency_in(cs, eq + 1, to) {
            Some(f) => {
                *frequency = Some(f);
                assert(rule_part_step(st, part) == Some(RuleParts { frequency: Some(f), ..st }));
                true
            },
            None => false,
        }
    } else if range_is(cs, from, eq, "INTERVAL") {
        assert(key == "INTERVAL"@);
        match parse_unsigned_in(cs, eq + 1, to, u32::MAX as u64) {
            Some(n) => {
                assert(parse_unsigned(value, u32::MAX as int) == Some(n as int));
                *interval = n as u32;
                assert(rule_part_step(st, part) == Some(RuleParts { interval: n as int, ..st }));
                true
            },
            None => false,
        }
    } else if range_is(cs, from, eq, "COUNT") {
        assert(key == "COUNT"@);
        *count = match parse_unsigned_in(cs, eq + 1, to, usize::MAX as u64) {
            Some(n) => Some(n as usize),
            None => None,
        };
        assert(opt_usize_view(*count) == parse_unsigned(value, usize::MAX as int));
        true
    } else if range_is(cs, from, eq, "UNTIL") {
        assert(key == "UNTIL"@);
        let v = string_of(cs, eq + 1, to);
        *until = parse_ical_date(v.as_str());
        true
    } else {
        true
    }
}

/// Reads an `RRULE` value such as `FREQ=WEEKLY;COUNT=2`.
pub fn parse_rrule(rrule_text: &str) -> (r: Option<RecurrenceRule>)
    ensures
        match r {
            Some(rule) => rule_of(rrule_text@) == Some(rule@),
            None => rule_of(rrule_text@) is None,
        },
{
    let cs = chars_of(rrule_text);
    let len = cs.len();
    let mut frequency: Option<Frequency> = None;
    let mut interval: u32 = 1;
    let mut count: Option<usize> = None;
    let mut until: Option<Date> = None;
    let mut pos: usize = 0;
    let mut done = false;
    assert(cs@.subrange(0, len as int) =~= rrule_text@);
    while !done
        invariant
            cs@ == rrule_text@,
            len == cs.len(),
            pos <= len,
            done ==> rule_parts_read(no_rule_parts(), split_on(rrule_text@, ';')) == Some(
                RuleParts {
                    frequency: frequency,
                    interval: interval as int,
                    count: opt_usize_view(count),
                    until: opt_view(until),
                },
            ),
            !done ==> rule_parts_read(no_rule_parts(), split_on(rrule_text@, ';'))
                == rule_parts_read(
                RuleParts {
                    frequency: frequency,
                    interval: interval as int,
                    count: opt_usize_view(count),
                    until: opt_view(until),
                },
                split_on(cs@.subrange(pos as int, len as int), ';'),
            ),
        decreases len - pos + (if done { 0int } else { 1int }),
    {
        let ghost rest = cs@.subrange(pos as int, len as int);
        let ghost before = RuleParts {
            frequency: frequency,
            interval: interval as int,
            count: opt_usize_view(count),
            until: opt_view(until),
        };
        proof {
            lemma_split_on_first(rest, ';');
        }
        let part_end = match find_in(&cs, pos, len, ';') {
            Some(i) => i,
            None => len,
        };
        let ghost part = cs@.subrange(pos as int, part_end as int);
        let ghost tail = split_on(cs@.subrange(part_end + 1, len as int), ';');
        proof {
            if part_end < len {
                assert(rest.take(part_end - pos) =~= part);
                assert(rest.skip(part_end - pos + 1) =~= cs@.subrange(part_end + 1, len as int));
                assert(split_on(rest, ';') == seq![part] + tail);
                assert((seq![part] + tail)[0] == part);
                assert((seq![part] + tail).drop_first() =~= tail);
            } else {
                assert(rest =~= part);
                assert(split_on(rest, ';') == seq![part]);
                assert(seq![part].drop_first() =~= Seq::<Seq<char>>::empty());
            }
        }
        if !read_rule_part(&cs, pos, part_end, &mut frequency, &mut interval, &mut count, &mut until) {
            return None;
        }
        let ghost after = RuleParts {
            frequency: frequency,
            interval: interval as int,
            count: opt_usize_view(count),
            until: opt_view(until),
        };
        assert(rule_parts_read(after, Seq::<Seq<char>>::empty()) == Some(after));
        if part_end == len {
            done = true;
        } else {
            pos = part_end + 1;
        }
    }
    match frequency {
        Some(f) => Some(RecurrenceRule { frequency: f, interval, count, until }),
        None => None,
    }
}

/// The views of a sequence of dates.
pub open spec fn dates_view(v: Seq<Date>) -> Seq<Ymd> {
    v.map_values(|d: Date| d@)
}

/// The number of months a rule steps by: its interval, or twelve times it for a yearly rule
/// (at most `u32::MAX`).
pub open spec fn months_step(r: RuleView) -> int {
    if r.interval * 12 <= u32::MAX {
        r.interval * 12
    } else {
        u32::MAX as int
    }
}

/// The occurrence after `d`: one interval of days, weeks, months or years later.
pub open spec fn next_occurrence_of(d: Ymd, r: RuleView) -> Option<Ymd> {
    match r.frequency {
        Frequency::Daily => add_days(d, r.interval),
        Frequency::Weekly => add_days(d, 7 * r.interval),
        Frequency::Monthly => add_months(d, r.interval),
        Frequency::Yearly => add_months(d, months_step(r)),
    }
}

/// `d` lies after the rule's end date.
pub open spec fn after_until(r: RuleView, d: Ymd) -> bool {
    r.until matches Some(u) && date_lt(u, d)
}

/// `n` occurrences reach the rule's count.
pub open spec fn count_reached(r: RuleView, n: int) -> bool {
    r.count matches Some(c) && n >= c
}

/// The rule repeats `start` itself without end: a zero interval, no count, and no end date
/// before `start`.
pub open spec fn repeats_forever(start: Ymd, r: RuleView) -> bool {
    r.interval == 0 && r.count is None && !after_until(r, start)
}

pub open spec fn occurrence_measure(d: Ymd, r: RuleView, seen: int) -> int {
    if r.interval == 0 {
        match r.count {
            Some(c) => c - seen,
            None => 0,
        }
    } else if r.frequency == Frequency::Daily || r.frequency == Frequency::Weekly {
        day_number(last_date()) - day_number(d)
    } else {
        month_index(last_date()) - month_index(d)
    }
}

/// The step to the next occurrence keeps dates valid and moves forward by the interval.
pub proof fn lemma_next_occurrence(d: Ymd, r: RuleView)
    requires
        is_valid_date(d),
        0 <= r.interval <= u32::MAX,
    ensures
        next_occurrence_of(d, r) matches Some(n) ==> {
            &&& is_valid_date(n)
            &&& r.frequency == Frequency::Daily ==> day_number(n) == day_number(d) + r.interval
            &&& r.frequency == Frequency::Weekly ==> day_number(n) == day_number(d) + 7
                * r.interval
            &&& r.frequency == Frequency::Monthly ==> month_index(n) == month_index(d) + r.interval
            &&& r.frequency == Frequency::Yearly ==> month_index(n) == month_index(d)
                + months_step(r)
            &&& day_number(n) <= day_number(last_date())
            &&& month_index(n) <= month_index(last_date())
        },
        r.interval > 0 ==> occurrence_measure(d, r, 0) >= 0,
{
    lemma_in_range(d);
    match r.frequency {
        Frequency::Daily => {
            if next_occurrence_of(d, r) is Some {
                lemma_add_days(d, r.interval);
                lemma_in_range(next_occurrence_of(d, r).unwrap());
            }
        },
        Frequency::Weekly => {
            if next_occurrence_of(d, r) is Some {
                lemma_add_days(d, 7 * r.interval);
                lemma_in_range(next_occurrence_of(d, r).unwrap());
            }
        },
        Frequency::Monthly => {
            lemma_add_months(d, r.interval);
            if next_occurrence_of(d, r) is Some {
                lemma_in_range(next_occurrence_of(d, r).unwrap());
            }
        },
        Frequency::Yearly => {
            lemma_add_months(d, months_step(r));
            if next_occurrence_of(d, r) is Some {
                lemma_in_range(next_occurrence_of(d, r).unwrap());
            }
        },
    }
}

/// The occurrences of a rule from `d` on, when `seen` occurrences came before `d`: `d`
/// itself unless it lies after the end date, then the following ones until the count is
/// reached or no next occurrence exists.
pub open spec fn occurrences(d: Ymd, r: RuleView, seen: int) -> Seq<Ymd>
    decreases occurrence_measure(d, r, seen),
    when is_valid_date(d) && 0 <= r.interval <= u32::MAX && seen >= 0 && !repeats_forever(d, r)
{
    if after_until(r, d) {
        seq![]
    } else if count_reached(r, seen + 1) {
        seq![d]
    } else {
        match next_occurrence_of(d, r) {
            None => seq![d],
            Some(n) => {
                proof {
                    lemma_next_occurrence(d, r);
                    lemma_next_occurrence(n, r);
                }
                seq![d] + occurrences(n, r, seen + 1)
            },
        }
    }
}

/// The chain of occurrences may end at `last`, the `n`th date: the count is reached, no next
/// date exists, or the next date lies after the end date.
pub open spec fn ends_chain(last: Ymd, r: RuleView, n: int) -> bool {
    ||| count_reached(r, n)
    ||| next_occurrence_of(last, r) is None
    ||| next_occurrence_of(last, r) matches Some(x) && after_until(r, x)
}

/// With a positive interval, the occurrence after a date lies after it.
proof fn lemma_next_occurrence_later(d: Ymd, r: RuleView)
    requires
        is_valid_date(d),
        0 < r.interval <= u32::MAX,
    ensures
        next_occurrence_of(d, r) matches Some(n) ==> date_lt(d, n),
{
    lemma_next_occurrence(d, r);
    if let Some(n) = next_occurrence_of(d, r) {
        if r.frequency == Frequency::Daily || r.frequency == Frequency::Weekly {
            if date_lt(n, d) {
                lemma_day_number_increasing(n, d);
            }
        }
    }
}

/// The shape of the occurrences from `d` on, when `seen` came before: see
/// `lemma_occurrences_follow_rule`.
proof fn lemma_occurrences_from(d: Ymd, r: RuleView, seen: int)
    requires
        is_valid_date(d),
        0 <= r.interval <= u32::MAX,
        seen >= 0,
        !repeats_forever(d, r),
    ensures
        occurrences(d, r, seen).len() == 0 <==> after_until(r, d),
        occurrences(d, r, seen).len() > 0 ==> occurrences(d, r, seen)[0] == d,
        forall|i: int|
            0 <= i < occurrences(d, r, seen).len() - 1 ==> next_occurrence_of(
                #[trigger] occurrences(d, r, seen)[i],
                r,
            ) == Some(occurrences(d, r, seen)[i + 1]),
        forall|i: int|
            0 <= i < occurrences(d, r, seen).len() ==> is_valid_date(
                #[trigger] occurrences(d, r, seen)[i],
            ) && !after_until(r, occurrences(d, r, seen)[i]),
        r.interval > 0 ==> forall|i: int, j: int|
            0 <= i < j < occurrences(d, r, seen).len() ==> date_lt(
                #[trigger] occurrences(d, r, seen)[i],
                #[trigger] occurrences(d, r, seen)[j],
            ),
        r.count matches Some(c) ==> seen + occurrences(d, r, seen).len() <= if c > seen + 1 {
            c
        } else {
            seen + 1
        },
        occurrences(d, r, seen).len() > 0 ==> ends_chain(
            occurrences(d, r, seen)[occurrences(d, r, seen).len() - 1],
            r,
            seen + occurrences(d, r, seen).len(),
        ),
    decreases occurrence_measure(d, r, seen),
{
    lemma_next_occurrence(d, r);
    let s = occurrences(d, r, seen);
    if after_until(r, d) {
    } else if count_reached(r, seen + 1) {
        assert(s == seq![d]);
    } else {
        match next_occurrence_of(d, r) {
            None => {
                assert(s == seq![d]);
            },
            Some(n) => {
                lemma_next_occurrence(n, r);
                lemma_occurrences_from(n, r, seen + 1);
                let t = occurrences(n, r, seen + 1);
                assert(s == seq![d] + t);
                if t.len() > 0 {
                    assert(s[s.len() - 1] == t[t.len() - 1]);
                }
                if r.interval > 0 {
                    lemma_next_occurrence_later(d, r);
                }
                assert forall|i: int| 0 <= i < s.len() - 1 implies next_occurrence_of(
                    #[trigger] s[i],
                    r,
                ) == Some(s[i + 1]) by {
                    if i > 0 {
                        assert(s[i] == t[i - 1]);
                    }
                    assert(s[i + 1] == t[i]);
                }
                assert forall|i: int| 0 <= i < s.len() implies is_valid_date(#[trigger] s[i])
                    && !after_until(r, s[i]) by {
                    if i > 0 {
                        assert(s[i] == t[i - 1]);
                    }
                }
                if r.interval > 0 {
                    assert forall|i: int, j: int| 0 <= i < j < s.len() implies date_lt(
                        #[trigger] s[i],
                        #[trigger] s[j],
                    ) by {
                        assert(s[j] == t[j - 1]);
                        if i > 0 {
                            assert(s[i] == t[i - 1]);
                        } else if j > 1 {
                            assert(date_lt(t[0], t[j - 1]));
                        }
                    }
                }
            },
        }
    }
}

/// The dates a recurrence rule gives from `start`: none when `start` lies after the rule's
/// end date, else `start` first; each date after the first is the occurrence that follows
/// the one before it; every date is valid and none lies after the end date; with a positive
/// interval the dates strictly increase; there are no more of them than the rule's count, or
/// one where the count is zero; and they stop only where the chain must end, so that they are
/// the longest such run.
pub proof fn lemma_occurrences_follow_rule(start: Ymd, r: RuleView)
    requires
        is_valid_date(start),
        0 <= r.interval <= u32::MAX,
        !repeats_forever(start, r),
    ensures
        occurrences(start, r, 0).len() == 0 <==> after_until(r, start),
        occurrences(start, r, 0).len() > 0 ==> occurrences(start, r, 0)[0] == start,
        forall|i: int|
            0 <= i < occurrences(start, r, 0).len() - 1 ==> next_occurrence_of(
                #[trigger] occurrences(start, r, 0)[i],
                r,
            ) == Some(occurrences(start, r, 0)[i + 1]),
        forall|i: int|
            0 <= i < occurrences(start, r, 0).len() ==> is_valid_date(
                #[trigger] occurrences(start, r, 0)[i],
            ) && !after_until(r, occurrences(start, r, 0)[i]),
        r.interval > 0 ==> forall|i: int, j: int|
            0 <= i < j < occurrences(start, r, 0).len() ==> date_lt(
                #[trigger] occurrences(start, r, 0)[i],
                #[trigger] occurrences(start, r, 0)[j],
            ),
        r.count matches Some(c) ==> occurrences(start, r, 0).len() <= if c > 1 {
            c
        } else {
            1
        },
        occurrences(start, r, 0).len() > 0 ==> ends_chain(
            occurrences(start, r, 0)[occurrences(start, r, 0).len() - 1],
            r,
            occurrences(start, r, 0).len() as int,
        ),
{
    lemma_occurrences_from(start, r, 0);
}

/// The steps between the dates a recurrence rule gives: a daily rule moves on by its interval
/// in days and a weekly one by seven times its interval; a monthly rule moves on by its
/// interval in months and a yearly one by twelve times its interval in months (at most
/// `u32::MAX` months), keeping the day of the month where the month reached has it and taking
/// its last day where it does not.
pub proof fn lemma_occurrence_steps(start: Ymd, r: RuleView)
    requires
        is_valid_date(start),
        0 <= r.interval <= u32::MAX,
        !repeats_forever(start, r),
    ensures
        forall|i: int|
            0 <= i < occurrences(start, r, 0).len() - 1 ==> {
                let a = #[trigger] occurrences(start, r, 0)[i];
                let b = occurrences(start, r, 0)[i + 1];
                &&& r.frequency == Frequency::Daily ==> day_number(b) == day_number(a)
                    + r.interval
                &&& r.frequency == Frequency::Weekly ==> day_number(b) == day_number(a) + 7
                    * r.interval
                &&& r.frequency == Frequency::Monthly ==> month_index(b) == month_index(a)
                    + r.interval
                &&& r.frequency == Frequency::Yearly ==> month_index(b) == month_index(a) + if 12
                    * r.interval <= u32::MAX {
                    12 * r.interval
                } else {
                    u32::MAX as int
                }
                &&& (r.frequency == Frequency::Monthly || r.frequency == Frequency::Yearly) ==> b.day
                    == if a.day <= days_in_month(b.year, b.month) {
                    a.day
                } else {
                    days_in_month(b.year, b.month)
                }
            },
{
    lemma_occurrences_follow_rule(start, r);
    let s = occurrences(start, r, 0);
    assert forall|i: int| 0 <= i < s.len() - 1 implies {
        let a = #[trigger] s[i];
        let b = s[i + 1];
        &&& r.frequency == Frequency::Daily ==> day_number(b) == day_number(a) + r.interval
        &&& r.frequency == Frequency::Weekly ==> day_number(b) == day_number(a) + 7 * r.interval
        &&& r.frequency == Frequency::Monthly ==> month_index(b) == month_index(a) + r.interval
        &&& r.frequency == Frequency::Yearly ==> month_index(b) == month_index(a) + if 12
            * r.interval <= u32::MAX {
            12 * r.interval
        } else {
            u32::MAX as int
        }
        &&& (r.frequency == Frequency::Monthly || r.frequency == Frequency::Yearly) ==> b.day
            == if a.day <= days_in_month(b.year, b.month) {
            a.day
        } else {
            days_in_month(b.year, b.month)
        }
    } by {
        assert(next_occurrence_of(s[i], r) == Some(s[i + 1]));
        lemma_next_occurrence(s[i], r);
        lemma_add_months(s[i], r.interval);
        lemma_add_months(s[i], months_step(r));
    }
}

/// The occurrence after `date` under `rule`.
fn next_occurrence(date: Date, rule: &RecurrenceRule) -> (r: Option<Date>)
    ensures
        opt_view(r) == next_occurrence_of(date@, rule@),
{
    match rule.frequency {
        Frequency::Daily => checked_add_signed_days(date, rule.interval as i64),
        Frequency::Weekly => checked_add_signed_days(date, 7 * (rule.interval as i64)),
        Frequency::Monthly => checked_add_months(date, rule.interval),
        Frequency::Yearly => {
            let months = if rule.interval > u32::MAX / 12 {
                u32::MAX
            } else {
                rule.interval * 12
            };
            checked_add_months(date, months)
        },
    }
}

/// The dates on which an event that first happens on `start` recurs under the `RRULE` value
/// `rrule_text`, `start` included; none where the value states no rule.
pub fn expand_rrule_events(start: Date, rrule_text: &str) -> (r: Vec<Date>)
    requires
        rule_of(rrule_text@) matches Some(rule) ==> !repeats_forever(start@, rule),
    ensures
        match rule_of(rrule_text@) {
            Some(rule) => dates_view(r@) == occurrences(start@, rule, 0),
            None => r@.len() == 0,
        },
{
    let rule = match parse_rrule(rrule_text) {
        Some(rule) => rule,
        None => {
            return Vec::new();
        },
    };
    let ghost rv = rule@;
    let mut dates: Vec<Date> = Vec::new();
    let mut current = start;
    let mut seen: usize = 0;
    assert(dates_view(dates@) =~= Seq::<Ymd>::empty());
    loop
        invariant_except_break
            seen == dates.len(),
            !repeats_forever(current@, rv),
            rv.interval == 0 ==> (rv.count matches Some(c) ==> seen <= c),
            dates_view(dates@) + occurrences(current@, rv, seen as int) == occurrences(
                start@,
                rv,
                0,
            ),
        invariant
            rv == rule@,
            0 <= rv.interval <= u32::MAX,
        ensures
            dates_view(dates@) == occurrences(start@, rv, 0),
        decreases occurrence_measure(current@, rv, seen as int),
    {
        proof {
            use_type_invariant(&current);
            Date::lemma_valid(current);
            lemma_next_occurrence(current@, rv);
        }
        let ghost before = dates_view(dates@);
        if let Some(until) = rule.until {
            if until.is_before(&current) {
                assert(occurrences(current@, rv, seen as int) =~= Seq::<Ymd>::empty());
                assert(before + Seq::<Ymd>::empty() =~= before);
                break;
            }
        }
        dates.push(current);
        assert(dates_view(dates@) =~= before.push(current@));
        seen = dates.len();
        if let Some(count) = rule.count {
            if seen >= count {
                assert(occurrences(current@, rv, (seen - 1) as int) == seq![current@]);
                assert(before + seq![current@] =~= dates_view(dates@));
                break;
            }
        }
        let next = match next_occurrence(current, &rule) {
            Some(n) => n,
            None => {
                assert(occurrences(current@, rv, (seen - 1) as int) == seq![current@]);
                assert(before + seq![current@] =~= dates_view(dates@));
                break;
            },
        };
        proof {
            use_type_invariant(&next);
            Date::lemma_valid(next);
            lemma_next_occurrence(next@, rv);
            assert(occurrences(current@, rv, (seen - 1) as int) == seq![current@] + occurrences(
                next@,
                rv,
                seen as int,
            ));
            assert(before + (seq![current@] + occurrences(next@, rv, seen as int))
                =~= dates_view(dates@) + occurrences(next@, rv, seen as int));
        }
        current = next;
    }
    dates
}

/// Whether `rule` repeats `start` without end.
fn rule_repeats_forever(start: &Date, rule: &RecurrenceRule) -> (r: bool)
    ensures
        r == repeats_forever(start@, rule@),
{
    let after = match rule.until {
        Some(u) => u.is_before(start),
        None => false,
    };
    rule.interval == 0 && rule.count.is_none() && !after
}

/// `expand_rrule_events`, or `None` where the rule repeats `start` without end (a zero
/// interval with neither a count nor an end date before `start`), on which
/// `expand_rrule_events` would never return.
pub fn checked_expand_rrule_events(start: Date, rrule_text: &str) -> (r: Option<Vec<Date>>)
    ensures
        match rule_of(rrule_text@) {
            Some(rule) => if repeats_forever(start@, rule) {
                r is None
            } else {
                r matches Some(v) && dates_view(v@) == occurrences(start@, rule, 0)
            },
            None => r matches Some(v) && v@.len() == 0,
        },
{
    if let Some(rule) = parse_rrule(rrule_text) {
        if rule_repeats_forever(&start, &rule) {
            return None;
        }
    }
    Some(expand_rrule_events(start, rrule_text))
}

/// `y` lies in the range of years, as `RangeInclusive::contains` decides.
pub open spec fn year_in(years: RangeInclusiveView<i32>, y: int) -> bool {
    years.start <= y && if years.exhausted {
        y < years.end
    } else {
        y <= years.end
    }
}

/// Every day from `cur` on through `end`; just `cur` when `end` is not after it.
pub open spec fn days_through(cur: Ymd, end: Ymd) -> Seq<Ymd>
    decreases day_number(last_date()) - day_number(cur),
    when is_valid_date(cur)
{
    if !date_lt(cur, end) {
        seq![cur]
    } else {
        match next_day(cur) {
            None => seq![cur],
            Some(n) => {
                proof {
                    lemma_next_day(cur);
                    lemma_in_range(n);
                }
                seq![cur] + days_through(n, end)
            },
        }
    }
}

/// The days from `start` through `end` whose year lies in `years`.
pub open spec fn span_dates(start: Ymd, end: Ymd, years: RangeInclusiveView<i32>) -> Seq<Ymd> {
    days_through(start, end).filter(|d: Ymd| year_in(years, d.year))
}

fn expand_span(start: Date, end: Date, years: &RangeInclusive<i32>) -> (r: Vec<Date>)
    ensures
        dates_view(r@) == span_dates(start@, end@, years@),
{
    let mut dates: Vec<Date> = Vec::new();
    let mut current = start;
    let ghost keep = |d: Ymd| year_in(years@, d.year);
    assert(dates_view(dates@) =~= Seq::<Ymd>::empty());
    loop
        invariant_except_break
            dates_view(dates@) + days_through(current@, end@).filter(keep) == days_through(
                start@,
                end@,
            ).filter(keep),
        invariant
            keep == (|d: Ymd| year_in(years@, d.year)),
        ensures
            dates_view(dates@) == days_through(start@, end@).filter(keep),
        decreases day_number(last_date()) - day_number(current@),
    {
        proof {
            use_type_invariant(&current);
            Date::lemma_valid(current);
            lemma_next_day(current@);
            lemma_in_range(current@);
        }
        let ghost before = dates_view(dates@);
        let ghost here = days_through(current@, end@);
        let ghost kept_here = if keep(current@) { seq![current@] } else { Seq::<Ymd>::empty() };
        if years.contains(&current.year()) {
            dates.push(current);
        }
        assert(dates_view(dates@) =~= before + kept_here);
        if !current.is_before(&end) {
            assert(here == seq![current@]);
            reveal_with_fuel(Seq::filter, 2);
            assert(here.filter(keep) =~= kept_here);
            assert(before + kept_here =~= dates_view(dates@));
            break;
        }
        let next = match succ_opt(current) {
            Some(n) => n,
            None => {
                assert(here == seq![current@]);
                reveal_with_fuel(Seq::filter, 2);
                assert(here.filter(keep) =~= kept_here);
                break;
            },
        };
        proof {
            use_type_invariant(&next);
            Date::lemma_valid(next);
            lemma_in_range(next@);
            let rest = days_through(next@, end@);
            assert(here == seq![current@] + rest);
            Seq::filter_distributes_over_add(seq![current@], rest, keep);
            reveal_with_fuel(Seq::filter, 2);
            assert(seq![current@].filter(keep) =~= kept_here);
            assert(before + here.filter(keep) =~= dates_view(dates@) + rest.filter(keep));
        }
        current = next;
    }
    dates
}

/// The days of a span from `cur` on: see `lemma_span_dates`.
proof fn lemma_span_from(cur: Ymd, end: Ymd, years: RangeInclusiveView<i32>)
    requires
        is_valid_date(cur),
        is_valid_date(end),
    ensures
        forall|i: int|
            0 <= i < span_dates(cur, end, years).len() ==> {
                let d = #[trigger] span_dates(cur, end, years)[i];
                &&& year_in(years, d.year)
                &&& is_valid_date(d)
                &&& date_le(cur, d)
                &&& d == cur || date_le(d, end)
            },
        forall|i: int, j: int|
            0 <= i < j < span_dates(cur, end, years).len() ==> date_lt(
                #[trigger] span_dates(cur, end, years)[i],
                #[trigger] span_dates(cur, end, years)[j],
            ),
        forall|d: Ymd|
            is_valid_date(d) && date_le(cur, d) && date_le(d, end) && year_in(years, d.year)
                ==> #[trigger] span_dates(cur, end, years).contains(d),
    decreases day_number(last_date()) - day_number(cur),
{
    let keep = |d: Ymd| year_in(years, d.year);
    let s = span_dates(cur, end, years);
    let head = if keep(cur) {
        seq![cur]
    } else {
        Seq::<Ymd>::empty()
    };
    lemma_next_day(cur);
    lemma_in_range(cur);
    if !date_lt(cur, end) || next_day(cur) is None {
        assert(days_through(cur, end) == seq![cur]);
        Seq::<Ymd>::empty().lemma_filter_prepend(cur, keep);
        assert(seq![cur] + Seq::<Ymd>::empty() =~= seq![cur]);
        assert(Seq::<Ymd>::empty().filter(keep) =~= Seq::<Ymd>::empty()) by {
            reveal(Seq::filter);
        }
        assert(s =~= head);
        assert forall|d: Ymd|
            is_valid_date(d) && date_le(cur, d) && date_le(d, end) && year_in(
                years,
                d.year,
            ) implies #[trigger] s.contains(d) by {
            assert(d == cur);
            assert(s[0] == d);
        }
    } else {
        let n = next_day(cur).unwrap();
        lemma_in_range(n);
        lemma_span_from(n, end, years);
        let t = days_through(n, end);
        let u = span_dates(n, end, years);
        assert(days_through(cur, end) == seq![cur] + t);
        t.lemma_filter_prepend(cur, keep);
        assert(s == head + u);
        assert forall|i: int| 0 <= i < s.len() implies {
            let d = #[trigger] s[i];
            &&& year_in(years, d.year)
            &&& is_valid_date(d)
            &&& date_le(cur, d)
            &&& d == cur || date_le(d, end)
        } by {
            if i >= head.len() {
                assert(s[i] == u[i - head.len()]);
            }
        }
        assert forall|i: int, j: int| 0 <= i < j < s.len() implies date_lt(
            #[trigger] s[i],
            #[trigger] s[j],
        ) by {
            assert(s[j] == u[j - head.len()]);
            if i >= head.len() {
                assert(s[i] == u[i - head.len()]);
            }
        }
        assert forall|d: Ymd|
            is_valid_date(d) && date_le(cur, d) && date_le(d, end) && year_in(
                years,
                d.year,
            ) implies #[trigger] s.contains(d) by {
            if d == cur {
                assert(s[0] == d);
            } else {
                assert(u.contains(d));
                let k = choose|k: int| 0 <= k < u.len() && u[k] == d;
                assert(s[k + head.len()] == d);
            }
        }
    }
}

/// The days a span covers: each lies in the years given, none lies before `start`, and each
/// but `start` lies no later than `end`; they strictly increase; and every day from `start`
/// through `end` whose year lies in the years given is among them.
pub proof fn lemma_span_dates(start: Ymd, end: Ymd, years: RangeInclusiveView<i32>)
    requires
        is_valid_date(start),
        is_valid_date(end),
    ensures
        forall|i: int|
            0 <= i < span_dates(start, end, years).len() ==> {
                let d = #[trigger] span_dates(start, end, years)[i];
                &&& year_in(years, d.year)
                &&& is_valid_date(d)
                &&& date_le(start, d)
                &&& d == start || date_le(d, end)
            },
        forall|i: int, j: int|
            0 <= i < j < span_dates(start, end, years).len() ==> date_lt(
                #[trigger] span_dates(start, end, years)[i],
                #[trigger] span_dates(start, end, years)[j],
            ),
        forall|d: Ymd|
            is_valid_date(d) && date_le(start, d) && date_le(d, end) && year_in(years, d.year)
                ==> #[trigger] span_dates(start, end, years).contains(d),
{
    lemma_span_from(start, end, years);
}

/// What the properties of an event read so far have set; a later property overrides an
/// earlier one.
pub struct EventFields {
    pub summary: Option<Seq<char>>,
    pub start: Option<Ymd>,
    pub end: Option<Seq<char>>,
    pub rrule: Option<Seq<char>>,
}

pub open spec fn no_fields() -> EventFields {
    EventFields { summary: None, start: None, end: None, rrule: None }
}

/// The effect of one property: `SUMMARY`, `DTEND` and `RRULE` set their field to the value
/// (or clear it); `DTSTART` sets the start only to a date that parses and whose year lies in
/// `years`; other properties change nothing.
pub open spec fn read_property(
    f: EventFields,
    p: PropertyView,
    years: RangeInclusiveView<i32>,
) -> EventFields {
    if p.0 == "SUMMARY"@ {
        EventFields { summary: p.1, ..f }
    } else if p.0 == "DTSTART"@ {
        match p.1 {
            Some(v) => match ical_date(v) {
                Some(d) => if year_in(years, d.year) {
                    EventFields { start: Some(d), ..f }
                } else {
                    f
                },
                None => f,
            },
            None => f,
        }
    } else if p.0 == "DTEND"@ {
        EventFields { end: p.1, ..f }
    } else if p.0 == "RRULE"@ {
        EventFields { rrule: p.1, ..f }
    } else {
        f
    }
}

/// The properties read in order.
pub open spec fn read_properties(props: Seq<PropertyView>, years: RangeInclusiveView<i32>) -> EventFields
    decreases props.len(),
{
    if props.len() == 0 {
        no_fields()
    } else {
        read_property(read_properties(props.drop_last(), years), props.last(), years)
    }
}

/// The number of days an event lasts after its first day, at least zero.
pub open spec fn span_length(start: Ymd, end: Ymd) -> int {
    if day_number(end) - day_number(start) > 0 {
        day_number(end) - day_number(start)
    } else {
        0
    }
}

/// For each occurrence in turn, its days through `span` days later, where that day exists.
pub open spec fn recurring_days(occs: Seq<Ymd>, span: int, years: RangeInclusiveView<i32>) -> Seq<Ymd>
    decreases occs.len(),
{
    if occs.len() == 0 {
        seq![]
    } else {
        recurring_days(occs.drop_last(), span, years) + match add_days(occs.last(), span) {
            Some(e) => span_dates(occs.last(), e, years),
            None => seq![],
        }
    }
}

/// The days an event with these fields covers, in the years given.
pub open spec fn event_days(f: EventFields, years: RangeInclusiveView<i32>) -> Seq<Ymd> {
    match f.start {
        None => seq![],
        Some(s) => {
            let e = event_end(s, f.end);
            match f.rrule {
                Some(text) => match rule_of(text) {
                    Some(rule) => recurring_days(occurrences(s, rule, 0), span_length(s, e), years),
                    None => seq![],
                },
                None => span_dates(s, e, years),
            }
        },
    }
}

pub open spec fn with_summary(days: Seq<Ymd>, summary: Seq<char>) -> Seq<(Ymd, Seq<char>)> {
    days.map_values(|d: Ymd| (d, summary))
}

/// The days of one event, each with its summary; none for an event without a start date
/// in the years given or without a summary.
pub open spec fn event_entries(props: Seq<PropertyView>, years: RangeInclusiveView<i32>) -> Seq<
    (Ymd, Seq<char>),
> {
    let f = read_properties(props, years);
    match (f.start, f.summary) {
        (Some(_), Some(summary)) => with_summary(event_days(f, years), summary),
        _ => seq![],
    }
}

/// An event whose recurrence rule repeats its start date without end.
pub open spec fn event_repeats_forever(
    props: Seq<PropertyView>,
    years: RangeInclusiveView<i32>,
) -> bool {
    let f = read_properties(props, years);
    &&& f.summary is Some
    &&& f.start matches Some(s)
    &&& f.rrule matches Some(text)
    &&& rule_of(text) matches Some(rule)
    &&& repeats_forever(s, rule)
}

pub open spec fn entries_view(v: Seq<(Date, String)>) -> Seq<(Ymd, Seq<char>)> {
    v.map_values(|e: (Date, String)| (e.0@, e.1@))
}

/// Appends each date with the summary.
fn push_dates(out: &mut Vec<(Date, String)>, dates: &Vec<Date>, summary: &String)
    ensures
        entries_view(final(out)@) == entries_view(old(out)@) + with_summary(
            dates_view(dates@),
            summary@,
        ),
{
    let ghost base = entries_view(out@);
    let mut i: usize = 0;
    while i < dates.len()
        invariant
            i <= dates.len(),
            entries_view(out@) == base + with_summary(dates_view(dates@.take(i as int)), summary@),
        decreases dates.len() - i,
    {
        let ghost prev_out = out@;
        let entry = (dates[i], summary.clone());
        out.push(entry);
        assert(entries_view(out@) =~= entries_view(prev_out).push((dates@[i as int]@, summary@)));
        let ghost prev_days = dates_view(dates@.take(i as int));
        assert(dates_view(dates@.take(i + 1)) =~= prev_days.push(dates@[i as int]@));
        assert(with_summary(prev_days.push(dates@[i as int]@), summary@) =~= with_summary(
            prev_days,
            summary@,
        ).push((dates@[i as int]@, summary@)));
        i += 1;
    }
    assert(dates@.take(dates.len() as int) =~= dates@);
}

fn clone_value(v: &Option<String>) -> (r: Option<String>)
    ensures
        opt_string_view(r) == opt_string_view(*v),
{
    match v {
        Some(s) => Some(s.clone()),
        None => None,
    }
}

/// The fields of an event: its summary, its start date, its end value and its `RRULE` value.
fn read_event(event: &IcalEvent, years: &RangeInclusive<i32>) -> (r: (
    Option<String>,
    Option<Date>,
    Option<String>,
    Option<String>,
))
    ensures
        read_properties(event@, years@) == (EventFields {
            summary: opt_string_view(r.0),
            start: opt_view(r.1),
            end: opt_string_view(r.2),
            rrule: opt_string_view(r.3),
        }),
{
    let mut summary: Option<String> = None;
    let mut date: Option<Date> = None;
    let mut end: Option<String> = None;
    let mut recurrence: Option<String> = None;
    let props = &event.properties;
    let mut i: usize = 0;
    while i < props.len()
        invariant
            i <= props.len(),
            props == event.properties,
            read_properties(event@.take(i as int), years@) == (EventFields {
                summary: opt_string_view(summary),
                start: opt_view(date),
                end: opt_string_view(end),
                rrule: opt_string_view(recurrence),
            }),
        decreases props.len() - i,
    {
        let property = &props[i];
        let ghost prev = event@.take(i as int);
        assert(event@.take(i + 1).drop_last() =~= prev);
        assert(event@.take(i + 1).last() == property@);
        let name = chars_of(property.name.as_str());
        let len = name.len();
        assert(name@.subrange(0, len as int) =~= property.name@);
        if range_is(&name, 0, len, "SUMMARY") {
            summary = clone_value(&property.value);
        } else if range_is(&name, 0, len, "DTSTART") {
            if let Some(value) = &property.value {
                if let Some(parsed) = parse_ical_date(value.as_str()) {
                    if years.contains(&parsed.year()) {
                        date = Some(parsed);
                    }
                }
            }
        } else if range_is(&name, 0, len, "DTEND") {
            end = clone_value(&property.value);
        } else if range_is(&name, 0, len, "RRULE") {
            recurrence = clone_value(&property.value);
        }
        i += 1;
    }
    assert(event@.take(props.len() as int) =~= event@);
    (summary, date, end, recurrence)
}

/// Appends the days of one event, each with its summary.
fn push_event_entries(
    out: &mut Vec<(Date, String)>,
    event: &IcalEvent,
    years: &RangeInclusive<i32>,
)
    requires
        !event_repeats_forever(event@, years@),
    ensures
        entries_view(final(out)@) == entries_view(old(out)@) + event_entries(event@, years@),
{
    let (summary, date, end, recurrence) = read_event(event, years);
    let ghost f = read_properties(event@, years@);
    if let (Some(start), Some(summary)) = (date, summary) {
        let end_value: Option<&str> = match &end {
            Some(e) => Some(e.as_str()),
            None => None,
        };
        let end = parse_event_end(start, end_value);
        if let Some(rrule) = recurrence {
            proof {
                use_type_invariant(&start);
                use_type_invariant(&end);
                Date::lemma_valid(start);
                Date::lemma_valid(end);
                lemma_in_range(start@);
                lemma_in_range(end@);
            }
            let diff = days_since(end, start);
            let span_days: i64 = if diff > 0 {
                diff
            } else {
                0
            };
            let occs = expand_rrule_events(start, rrule.as_str());
            let ghost occ_view = dates_view(occs@);
            let ghost base = entries_view(out@);
            let mut j: usize = 0;
            assert(occ_view.take(0) =~= Seq::<Ymd>::empty());
            while j < occs.len()
                invariant
                    j <= occs.len(),
                    occ_view == dates_view(occs@),
                    0 <= span_days <= day_number(last_date()) - day_number(first_date()),
                    entries_view(out@) == base + with_summary(
                        recurring_days(occ_view.take(j as int), span_days as int, years@),
                        summary@,
                    ),
                decreases occs.len() - j,
            {
                let occurrence = occs[j];
                assert(occ_view.take(j + 1).drop_last() =~= occ_view.take(j as int));
                assert(occ_view.take(j + 1).last() == occurrence@);
                let ghost before = recurring_days(occ_view.take(j as int), span_days as int, years@);
                if let Some(occurrence_end) = checked_add_signed_days(occurrence, span_days) {
                    let days = expand_span(occurrence, occurrence_end, years);
                    push_dates(out, &days, &summary);
                    assert(with_summary(before + dates_view(days@), summary@) =~= with_summary(before, summary@) + with_summary(dates_view(days@), summary@));
                } else {
                    assert(before + Seq::<Ymd>::empty() =~= before);
                }
                j += 1;
            }
            assert(occ_view.take(occs.len() as int) =~= occ_view);
        } else {
            let days = expand_span(start, end, years);
            push_dates(out, &days, &summary);
        }
    }
}

/// Each entry's date is no earlier than that of any entry before it.
pub open spec fn entries_sorted(s: Seq<(Ymd, Seq<char>)>) -> bool {
    forall|i: int, j: int| 0 <= i < j < s.len() ==> !date_lt(#[trigger] s[j].0, #[trigger] s[i].0)
}

pub open spec fn on_date(d: Ymd) -> spec_fn((Ymd, Seq<char>)) -> bool {
    |e: (Ymd, Seq<char>)| e.0 == d
}

/// `out` is `input` stably sorted by date: in date order, and with the entries of each date
/// in the order `input` has them.
pub open spec fn is_stable_date_sort(
    out: Seq<(Ymd, Seq<char>)>,
    input: Seq<(Ymd, Seq<char>)>,
) -> bool {
    &&& entries_sorted(out)
    &&& forall|d: Ymd| #[trigger] out.filter(on_date(d)) == input.filter(on_date(d))
}

/// Putting `x` after the entries whose date is not later than its own keeps, for every date,
/// the entries of that date in order, with `x` last among those of its date.
proof fn lemma_insert_per_date(s: Seq<(Ymd, Seq<char>)>, k: int, x: (Ymd, Seq<char>), d: Ymd)
    requires
        0 <= k <= s.len(),
        forall|j: int| k <= j < s.len() ==> date_lt(x.0, #[trigger] s[j].0),
    ensures
        s.insert(k, x).filter(on_date(d)) == s.filter(on_date(d)) + seq![x].filter(on_date(d)),
{
    let a = s.take(k);
    let b = s.skip(k);
    let p = on_date(d);
    assert(s =~= a + b);
    assert(s.insert(k, x) =~= a + seq![x] + b);
    Seq::filter_distributes_over_add(a, b, p);
    Seq::filter_distributes_over_add(a, seq![x], p);
    Seq::filter_distributes_over_add(a + seq![x], b, p);
    reveal_with_fuel(Seq::filter, 2);
    if x.0 == d {
        assert(b.all(|e: (Ymd, Seq<char>)| !p(e)));
        b.lemma_all_neg_filter_empty(p);
        assert(b.filter(p) =~= Seq::<(Ymd, Seq<char>)>::empty());
        assert(a.filter(p) + seq![x].filter(p) + b.filter(p) =~= a.filter(p) + b.filter(p)
            + seq![x].filter(p));
    } else {
        assert(seq![x].filter(p) =~= Seq::<(Ymd, Seq<char>)>::empty());
        assert(a.filter(p) + seq![x].filter(p) + b.filter(p) =~= a.filter(p) + b.filter(p)
            + seq![x].filter(p));
    }
}

/// Two sequences sorted by date with the same entries on each date, in the same order, are
/// equal.
proof fn lemma_sorted_same_per_date(a: Seq<(Ymd, Seq<char>)>, b: Seq<(Ymd, Seq<char>)>)
    requires
        entries_sorted(a),
        entries_sorted(b),
        forall|d: Ymd| #[trigger] a.filter(on_date(d)) == b.filter(on_date(d)),
    ensures
        a == b,
    decreases a.len(),
{
    reveal(Seq::filter);
    if a.len() == 0 || b.len() == 0 {
        if b.len() > 0 {
            let y = b.last();
            b.lemma_filter_contains(on_date(y.0), b.len() - 1);
            assert(a.filter(on_date(y.0)) == b.filter(on_date(y.0)));
            assert(a.filter(on_date(y.0)).len() == 0);
        }
        if a.len() > 0 {
            let x = a.last();
            a.lemma_filter_contains(on_date(x.0), a.len() - 1);
            assert(a.filter(on_date(x.0)) == b.filter(on_date(x.0)));
            assert(b.filter(on_date(x.0)).len() == 0);
        }
        assert(a =~= b);
    } else {
        let x = a.last();
        let y = b.last();
        let px = on_date(x.0);
        let py = on_date(y.0);
        b.lemma_filter_contains(py, b.len() - 1);
        assert(a.filter(py) == b.filter(py));
        a.lemma_filter_contains_rev(py, y);
        let k = choose|k: int| 0 <= k < a.len() && a[k] == y;
        if k < a.len() - 1 {
            assert(!date_lt(a[a.len() - 1].0, a[k].0));
        }
        a.lemma_filter_contains(px, a.len() - 1);
        assert(a.filter(px) == b.filter(px));
        b.lemma_filter_contains_rev(px, x);
        let m = choose|m: int| 0 <= m < b.len() && b[m] == x;
        if m < b.len() - 1 {
            assert(!date_lt(b[b.len() - 1].0, b[m].0));
        }
        assert(x.0 == y.0);
        let a2 = a.drop_last();
        let b2 = b.drop_last();
        assert(a.filter(px) == a2.filter(px).push(x));
        assert(b.filter(px) == b2.filter(px).push(y));
        assert(x == a.filter(px).last());
        assert(y == b.filter(px).last());
        assert(a2.filter(px) =~= a.filter(px).drop_last());
        assert(b2.filter(px) =~= b.filter(px).drop_last());
        assert forall|d: Ymd| #[trigger] a2.filter(on_date(d)) == b2.filter(on_date(d)) by {
            assert(a.filter(on_date(d)) == b.filter(on_date(d)));
            if d != x.0 {
                assert(a.filter(on_date(d)) == a2.filter(on_date(d)));
                assert(b.filter(on_date(d)) == b2.filter(on_date(d)));
            }
        }
        assert forall|i: int, j: int| 0 <= i < j < a2.len() implies !date_lt(
            #[trigger] a2[j].0,
            #[trigger] a2[i].0,
        ) by {
            assert(a2[i] == a[i] && a2[j] == a[j]);
        }
        assert forall|i: int, j: int| 0 <= i < j < b2.len() implies !date_lt(
            #[trigger] b2[j].0,
            #[trigger] b2[i].0,
        ) by {
            assert(b2[i] == b[i] && b2[j] == b[j]);
        }
        lemma_sorted_same_per_date(a2, b2);
        assert(a =~= a2.push(x));
        assert(b =~= b2.push(y));
    }
}

/// Sorting stably by date has one outcome: two sequences that both sort the same entries
/// stably by date are equal.
pub proof fn lemma_stable_date_sort_unique(
    a: Seq<(Ymd, Seq<char>)>,
    b: Seq<(Ymd, Seq<char>)>,
    input: Seq<(Ymd, Seq<char>)>,
)
    requires
        is_stable_date_sort(a, input),
        is_stable_date_sort(b, input),
    ensures
        a == b,
{
    assert forall|d: Ymd| #[trigger] a.filter(on_date(d)) == b.filter(on_date(d)) by {
        assert(a.filter(on_date(d)) == input.filter(on_date(d)));
        assert(b.filter(on_date(d)) == input.filter(on_date(d)));
    }
    lemma_sorted_same_per_date(a, b);
}

/// The entries stably sorted by date.
fn sort_by_date(v: Vec<(Date, String)>) -> (r: Vec<(Date, String)>)
    ensures
        is_stable_date_sort(entries_view(r@), entries_view(v@)),
{
    let ghost orig = entries_view(v@);
    let mut input = v;
    let mut out: Vec<(Date, String)> = Vec::new();
    let ghost mut i: int = 0;
    assert(orig.take(0) =~= Seq::<(Ymd, Seq<char>)>::empty());
    assert(entries_view(out@) =~= orig.take(0));
    assert(orig.skip(0) =~= orig);
    while input.len() > 0
        invariant
            0 <= i <= orig.len(),
            entries_view(input@) == orig.skip(i),
            is_stable_date_sort(entries_view(out@), orig.take(i)),
        decreases input.len(),
    {
        let ghost old_input = input@;
        assert(entries_view(old_input).len() == orig.len() - i);
        let x = input.remove(0);
        let ghost xv = (x.0@, x.1@);
        assert(entries_view(old_input)[0] == xv);
        assert(orig.skip(i)[0] == orig[i]);
        assert(orig[i] == xv);
        assert(entries_view(input@) =~= entries_view(old_input).drop_first());
        assert(orig.skip(i).drop_first() =~= orig.skip(i + 1));
        let ghost outv = entries_view(out@);
        let mut k = out.len();
        while k > 0 && x.0.is_before(&out[k - 1].0)
            invariant
                k <= out.len(),
                outv == entries_view(out@),
                xv.0 == x.0@,
                forall|j: int| k <= j < outv.len() ==> date_lt(xv.0, #[trigger] outv[j].0),
            decreases k,
        {
            assert(outv[k - 1].0 == out@[k - 1].0@);
            k -= 1;
        }
        out.insert(k, x);
        proof {
            assert(entries_view(out@) =~= outv.insert(k as int, xv));
            assert(orig.take(i + 1) =~= orig.take(i) + seq![xv]);
            assert forall|d: Ymd| #[trigger] entries_view(out@).filter(on_date(d)) == orig.take(
                i + 1,
            ).filter(on_date(d)) by {
                lemma_insert_per_date(outv, k as int, xv, d);
                Seq::filter_distributes_over_add(orig.take(i), seq![xv], on_date(d));
            }
            let nv = entries_view(out@);
            assert forall|a: int, b: int| 0 <= a < b < nv.len() implies !date_lt(
                #[trigger] nv[b].0,
                #[trigger] nv[a].0,
            ) by {
                if b < k {
                    assert(nv[a] == outv[a] && nv[b] == outv[b]);
                } else if b == k {
                    assert(nv[a] == outv[a]);
                    assert(!date_lt(xv.0, outv[k - 1].0));
                    assert(!date_lt(outv[k - 1].0, outv[a].0));
                } else if a < k {
                    assert(nv[a] == outv[a] && nv[b] == outv[b - 1]);
                } else if a == k {
                    assert(nv[b] == outv[b - 1]);
                } else {
                    assert(nv[a] == outv[a - 1] && nv[b] == outv[b - 1]);
                }
            }
            i = i + 1;
        }
    }
    assert(orig.take(i) =~= orig);
    out
}

/// Whether the event's recurrence rule repeats its start date without end.
fn repeats_without_end(event: &IcalEvent, years: &RangeInclusive<i32>) -> (r: bool)
    ensures
        r == event_repeats_forever(event@, years@),
{
    let (summary, date, _end, recurrence) = read_event(event, years);
    match (summary, date, recurrence) {
        (Some(_), Some(start), Some(text)) => match parse_rrule(text.as_str()) {
            Some(rule) => rule_repeats_forever(&start, &rule),
            None => false,
        },
        _ => false,
    }
}

/// The entries of the events of a calendar, in order.
pub open spec fn calendar_entries(
    evs: Seq<Seq<PropertyView>>,
    years: RangeInclusiveView<i32>,
) -> Seq<(Ymd, Seq<char>)>
    decreases evs.len(),
{
    if evs.len() == 0 {
        seq![]
    } else {
        calendar_entries(evs.drop_last(), years) + event_entries(evs.last(), years)
    }
}

/// The entries of the events of all calendars, in order.
pub open spec fn all_entries(
    cals: Seq<Seq<Seq<PropertyView>>>,
    years: RangeInclusiveView<i32>,
) -> Seq<(Ymd, Seq<char>)>
    decreases cals.len(),
{
    if cals.len() == 0 {
        seq![]
    } else {
        all_entries(cals.drop_last(), years) + calendar_entries(cals.last(), years)
    }
}

/// Some event of the calendars repeats its start date without end.
pub open spec fn some_event_repeats_forever(
    cals: Seq<Seq<Seq<PropertyView>>>,
    years: RangeInclusiveView<i32>,
) -> bool {
    exists|c: int, e: int|
        0 <= c < cals.len() && 0 <= e < cals[c].len() && event_repeats_forever(
            #[trigger] cals[c][e],
            years,
        )
}

/// The error of a text that does not parse.
pub open spec fn parse_failure(msg: Seq<char>) -> Seq<char> {
    "failed to parse iCal: "@ + msg
}

/// An event adds no entries when it has no summary, no start date in the years given, or a
/// recurrence rule that does not read.
pub proof fn lemma_event_without_entries(props: Seq<PropertyView>, years: RangeInclusiveView<i32>)
    requires
        ({
            let f = read_properties(props, years);
            ||| f.summary is None
            ||| f.start is None
            ||| f.rrule matches Some(t) && rule_of(t) is None
        }),
    ensures
        event_entries(props, years) == Seq::<(Ymd, Seq<char>)>::empty(),
{
    let f = read_properties(props, years);
    if f.summary is Some && f.start is Some {
        assert(event_days(f, years) == Seq::<Ymd>::empty());
        assert(with_summary(event_days(f, years), f.summary.unwrap()) =~= Seq::<
            (Ymd, Seq<char>),
        >::empty());
    }
}

/// The entries of two runs of events are those of the first run, then those of the second.
proof fn lemma_calendar_entries_add(
    a: Seq<Seq<PropertyView>>,
    b: Seq<Seq<PropertyView>>,
    years: RangeInclusiveView<i32>,
)
    ensures
        calendar_entries(a + b, years) == calendar_entries(a, years) + calendar_entries(b, years),
    decreases b.len(),
{
    if b.len() == 0 {
        assert(a + b =~= a);
        assert(calendar_entries(a, years) + calendar_entries(b, years) =~= calendar_entries(
            a,
            years,
        ));
    } else {
        lemma_calendar_entries_add(a, b.drop_last(), years);
        assert((a + b).drop_last() =~= a + b.drop_last());
        assert((a + b).last() == b.last());
        assert(calendar_entries(a, years) + calendar_entries(b, years) =~= calendar_entries(
            a,
            years,
        ) + calendar_entries(b.drop_last(), years) + event_entries(b.last(), years));
    }
}

/// The entries of two runs of calendars are those of the first run, then those of the
/// second.
proof fn lemma_all_entries_add(
    a: Seq<Seq<Seq<PropertyView>>>,
    b: Seq<Seq<Seq<PropertyView>>>,
    years: RangeInclusiveView<i32>,
)
    ensures
        all_entries(a + b, years) == all_entries(a, years) + all_entries(b, years),
    decreases b.len(),
{
    if b.len() == 0 {
        assert(a + b =~= a);
        assert(all_entries(a, years) + all_entries(b, years) =~= all_entries(a, years));
    } else {
        lemma_all_entries_add(a, b.drop_last(), years);
        assert((a + b).drop_last() =~= a + b.drop_last());
        assert((a + b).last() == b.last());
        assert(all_entries(a, years) + all_entries(b, years) =~= all_entries(a, years)
            + all_entries(b.drop_last(), years) + calendar_entries(b.last(), years));
    }
}

/// An event without a summary, without a start date in the years given, or with a recurrence
/// rule that does not read, put anywhere into any calendar, leaves the entries of all the
/// calendars as they were; so `events` returns the same with it as without it.
pub proof fn lemma_all_entries_without_event(
    cals: Seq<Seq<Seq<PropertyView>>>,
    c: int,
    k: int,
    props: Seq<PropertyView>,
    years: RangeInclusiveView<i32>,
)
    requires
        0 <= c < cals.len(),
        0 <= k <= cals[c].len(),
        ({
            let f = read_properties(props, years);
            ||| f.summary is None
            ||| f.start is None
            ||| f.rrule matches Some(t) && rule_of(t) is None
        }),
    ensures
        all_entries(cals.update(c, cals[c].insert(k, props)), years) == all_entries(cals, years),
{
    lemma_event_without_entries(props, years);
    let evs = cals[c];
    let front = evs.take(k);
    let back = evs.skip(k);
    assert(evs.insert(k, props) =~= front + seq![props] + back);
    assert(evs =~= front + back);
    lemma_calendar_entries_add(front + seq![props], back, years);
    lemma_calendar_entries_add(front, seq![props], years);
    lemma_calendar_entries_add(front, back, years);
    let one = seq![props];
    assert(one.drop_last() =~= Seq::<Seq<PropertyView>>::empty());
    assert(calendar_entries(one, years) == calendar_entries(one.drop_last(), years)
        + event_entries(one.last(), years));
    assert(calendar_entries(one, years) =~= Seq::<(Ymd, Seq<char>)>::empty());
    assert(calendar_entries(evs.insert(k, props), years) =~= calendar_entries(evs, years));
    let x = evs.insert(k, props);
    let before = cals.take(c);
    let after = cals.skip(c + 1);
    assert(cals.update(c, x) =~= before + seq![x] + after);
    assert(cals =~= before + seq![evs] + after);
    lemma_all_entries_add(before + seq![x], after, years);
    lemma_all_entries_add(before, seq![x], years);
    lemma_all_entries_add(before + seq![evs], after, years);
    lemma_all_entries_add(before, seq![evs], years);
    let one_x = seq![x];
    let one_evs = seq![evs];
    assert(one_x.drop_last() =~= Seq::<Seq<Seq<PropertyView>>>::empty());
    assert(one_evs.drop_last() =~= Seq::<Seq<Seq<PropertyView>>>::empty());
    assert(all_entries(one_x, years) == all_entries(one_x.drop_last(), years) + calendar_entries(
        one_x.last(),
        years,
    ));
    assert(all_entries(one_evs, years) == all_entries(one_evs.drop_last(), years)
        + calendar_entries(one_evs.last(), years));
    assert(all_entries(one_x, years) =~= calendar_entries(x, years));
    assert(all_entries(one_evs, years) =~= calendar_entries(evs, years));
}

/// Every entry's date lies in the years given.
pub open spec fn entries_in_years(s: Seq<(Ymd, Seq<char>)>, years: RangeInclusiveView<i32>) -> bool {
    forall|i: int| 0 <= i < s.len() ==> year_in(years, (#[trigger] s[i]).0.year)
}

/// Every day of a span lies in the years given.
proof fn lemma_span_in_years(start: Ymd, end: Ymd, years: RangeInclusiveView<i32>)
    ensures
        forall|i: int|
            0 <= i < span_dates(start, end, years).len() ==> year_in(
                years,
                (#[trigger] span_dates(start, end, years)[i]).year,
            ),
{
    let keep = |d: Ymd| year_in(years, d.year);
    assert forall|i: int| 0 <= i < span_dates(start, end, years).len() implies year_in(
        years,
        (#[trigger] span_dates(start, end, years)[i]).year,
    ) by {
        days_through(start, end).lemma_filter_pred(keep, i);
    }
}

/// Every day of the occurrences of a recurring event lies in the years given.
proof fn lemma_recurring_in_years(occs: Seq<Ymd>, span: int, years: RangeInclusiveView<i32>)
    ensures
        forall|i: int|
            0 <= i < recurring_days(occs, span, years).len() ==> year_in(
                years,
                (#[trigger] recurring_days(occs, span, years)[i]).year,
            ),
    decreases occs.len(),
{
    if occs.len() > 0 {
        lemma_recurring_in_years(occs.drop_last(), span, years);
        let a = recurring_days(occs.drop_last(), span, years);
        let b = match add_days(occs.last(), span) {
            Some(e) => span_dates(occs.last(), e, years),
            None => seq![],
        };
        if let Some(e) = add_days(occs.last(), span) {
            lemma_span_in_years(occs.last(), e, years);
        }
        let r = recurring_days(occs, span, years);
        assert(r == a + b);
        assert forall|i: int| 0 <= i < r.len() implies year_in(years, (#[trigger] r[i]).year) by {
            if i < a.len() {
                assert(r[i] == a[i]);
            } else {
                assert(r[i] == b[i - a.len()]);
            }
        }
    }
}

/// Two runs of entries in the years given make one.
proof fn lemma_concat_in_years(
    a: Seq<(Ymd, Seq<char>)>,
    b: Seq<(Ymd, Seq<char>)>,
    years: RangeInclusiveView<i32>,
)
    requires
        entries_in_years(a, years),
        entries_in_years(b, years),
    ensures
        entries_in_years(a + b, years),
{
    assert forall|i: int| 0 <= i < (a + b).len() implies year_in(
        years,
        (#[trigger] (a + b)[i]).0.year,
    ) by {
        if i < a.len() {
            assert((a + b)[i] == a[i]);
        } else {
            assert((a + b)[i] == b[i - a.len()]);
        }
    }
}

/// The last day an end value gives an event: a value with a time, whether or not it ends in
/// `Z`, names the last day itself; a date without a time is exclusive, so the last day is the
/// one before it; an end that does not read, or no end, leaves the event on its first day.
pub proof fn lemma_event_end_value(start: Ymd, v: Seq<char>)
    ensures
        event_end(start, None) == start,
        ical_date(v) is None ==> event_end(start, Some(v)) == start,
        ical_date(v) is Some && find_char(v, 'T') is Some ==> event_end(start, Some(v))
            == ical_date(v).unwrap(),
        ical_date(v) is Some && find_char(v, 'T') is None && is_valid_date(ical_date(v).unwrap())
            && date_lt(first_date(), ical_date(v).unwrap()) ==> {
            let x = event_end(start, Some(v));
            is_valid_date(x) && next_day(x) == Some(ical_date(v).unwrap())
        },
{
    if let Some(e) = ical_date(v) {
        if find_char(v, 'T') is None && is_valid_date(e) && date_lt(first_date(), e) {
            lemma_in_range(e);
            lemma_day_number_increasing(first_date(), e);
            lemma_add_days(e, -1);
            let x = add_days(e, -1).unwrap();
            lemma_next_day(x);
            if let Some(n) = next_day(x) {
                lemma_day_number_injective(n, e);
            } else {
                lemma_in_range(x);
            }
        }
    }
}

/// A single event whose end value has a time covers every day from its start through the
/// date of that value, the last day included, within the years given.
pub proof fn lemma_timed_event_covers_end_day(
    f: EventFields,
    years: RangeInclusiveView<i32>,
    v: Seq<char>,
    d: Ymd,
)
    requires
        f.start matches Some(s) && is_valid_date(s),
        f.rrule is None,
        f.end == Some(v),
        find_char(v, 'T') is Some,
        ical_date(v) is Some,
        is_valid_date(ical_date(v).unwrap()),
        is_valid_date(d),
        date_le(f.start.unwrap(), d),
        date_le(d, ical_date(v).unwrap()),
        year_in(years, d.year),
    ensures
        event_days(f, years).contains(d),
{
    let s = f.start.unwrap();
    lemma_event_end_value(s, v);
    lemma_span_dates(s, ical_date(v).unwrap(), years);
}

/// The entries of one event lie in the years given.
proof fn lemma_event_in_years(props: Seq<PropertyView>, years: RangeInclusiveView<i32>)
    ensures
        entries_in_years(event_entries(props, years), years),
{
    let f = read_properties(props, years);
    if let (Some(s), Some(summary)) = (f.start, f.summary) {
        let days = event_days(f, years);
        let e = event_end(s, f.end);
        match f.rrule {
            Some(text) => match rule_of(text) {
                Some(rule) => lemma_recurring_in_years(
                    occurrences(s, rule, 0),
                    span_length(s, e),
                    years,
                ),
                None => {},
            },
            None => lemma_span_in_years(s, e, years),
        }
        let es = event_entries(props, years);
        assert forall|i: int| 0 <= i < es.len() implies year_in(years, (#[trigger] es[i]).0.year) by {
            assert(es[i].0 == days[i]);
        }
    }
}

/// The entries of a calendar's events lie in the years given.
proof fn lemma_calendar_in_years(evs: Seq<Seq<PropertyView>>, years: RangeInclusiveView<i32>)
    ensures
        entries_in_years(calendar_entries(evs, years), years),
    decreases evs.len(),
{
    if evs.len() > 0 {
        lemma_calendar_in_years(evs.drop_last(), years);
        lemma_event_in_years(evs.last(), years);
        lemma_concat_in_years(
            calendar_entries(evs.drop_last(), years),
            event_entries(evs.last(), years),
            years,
        );
    }
}

/// The entries of all calendars' events lie in the years given.
proof fn lemma_all_in_years(cals: Seq<Seq<Seq<PropertyView>>>, years: RangeInclusiveView<i32>)
    ensures
        entries_in_years(all_entries(cals, years), years),
    decreases cals.len(),
{
    if cals.len() > 0 {
        lemma_all_in_years(cals.drop_last(), years);
        lemma_calendar_in_years(cals.last(), years);
        lemma_concat_in_years(
            all_entries(cals.drop_last(), years),
            calendar_entries(cals.last(), years),
            years,
        );
    }
}

/// Sorting keeps the entries in the years given.
proof fn lemma_sorted_in_years(
    out: Seq<(Ymd, Seq<char>)>,
    input: Seq<(Ymd, Seq<char>)>,
    years: RangeInclusiveView<i32>,
)
    requires
        is_stable_date_sort(out, input),
        entries_in_years(input, years),
    ensures
        entries_in_years(out, years),
{
    assert forall|i: int| 0 <= i < out.len() implies year_in(years, (#[trigger] out[i]).0.year) by {
        let p = on_date(out[i].0);
        out.lemma_filter_contains(p, i);
        assert(out.filter(p) == input.filter(p));
        input.lemma_filter_contains_rev(p, out[i]);
        let k = choose|k: int| 0 <= k < input.len() && input[k] == out[i];
        assert(year_in(years, input[k].0.year));
    }
}

/// Every day `events` returns lies in the years asked for.
pub proof fn lemma_events_in_years(
    out: Seq<(Ymd, Seq<char>)>,
    cals: Seq<Seq<Seq<PropertyView>>>,
    years: RangeInclusiveView<i32>,
)
    requires
        is_stable_date_sort(out, all_entries(cals, years)),
    ensures
        entries_in_years(out, years),
{
    lemma_all_in_years(cals, years);
    lemma_sorted_in_years(out, all_entries(cals, years), years);
}

/// The entries of all events of the calendars, sorted by date.
fn calendars_entries(
    calendars: &Vec<crate::ics::IcalCalendar>,
    years: &RangeInclusive<i32>,
) -> (r: Vec<(Date, String)>)
    requires
        !some_event_repeats_forever(crate::ics::calendars_view(calendars@), years@),
    ensures
        is_stable_date_sort(
            entries_view(r@),
            all_entries(crate::ics::calendars_view(calendars@), years@),
        ),
{
    let ghost cals = crate::ics::calendars_view(calendars@);
    let mut out: Vec<(Date, String)> = Vec::new();
    let mut c: usize = 0;
    assert(entries_view(out@) =~= all_entries(cals.take(0), years@));
    while c < calendars.len()
        invariant
            c <= calendars.len(),
            cals == crate::ics::calendars_view(calendars@),
            !some_event_repeats_forever(cals, years@),
            entries_view(out@) == all_entries(cals.take(c as int), years@),
        decreases calendars.len() - c,
    {
        let calendar = &calendars[c];
        let ghost base = entries_view(out@);
        let ghost evs = cals[c as int];
        assert(evs == calendar@);
        let mut e: usize = 0;
        assert(base + calendar_entries(evs.take(0), years@) =~= base);
        while e < calendar.events.len()
            invariant
                c < calendars.len(),
                calendar == &calendars[c as int],
                cals == crate::ics::calendars_view(calendars@),
                evs == cals[c as int],
                evs == calendar@,
                !some_event_repeats_forever(cals, years@),
                e <= calendar.events.len(),
                entries_view(out@) == base + calendar_entries(evs.take(e as int), years@),
            decreases calendar.events.len() - e,
        {
            let event = &calendar.events[e];
            assert(evs[e as int] == event@);
            assert(!event_repeats_forever(cals[c as int][e as int], years@));
            push_event_entries(&mut out, event, years);
            assert(evs.take(e + 1).drop_last() =~= evs.take(e as int));
            assert(base + calendar_entries(evs.take(e + 1), years@) =~= base + calendar_entries(
                evs.take(e as int),
                years@,
            ) + event_entries(event@, years@));
            e += 1;
        }
        assert(evs.take(calendar.events.len() as int) =~= evs);
        assert(cals.take(c + 1).drop_last() =~= cals.take(c as int));
        assert(cals.take(c + 1).last() == evs);
        c += 1;
    }
    assert(cals.take(calendars.len() as int) =~= cals);
    sort_by_date(out)
}

/// Every day that an event of the iCalendar text covers within `years`, with the event's
/// summary, sorted by date.
pub fn events(ical_text: &str, years: RangeInclusive<i32>) -> (r: Result<
    Vec<(Date, String)>,
    String,
>)
    requires
        parsed_calendars(ical_text@) matches Ok(cals) ==> !some_event_repeats_forever(
            cals,
            years@,
        ),
    ensures
        match parsed_calendars(ical_text@) {
            Ok(cals) => r matches Ok(v) && is_stable_date_sort(
                entries_view(v@),
                all_entries(cals, years@),
            ),
            Err(msg) => r matches Err(e) && e@ == parse_failure(msg),
        },
{
    match parse_calendars(ical_text) {
        Ok(calendars) => Ok(calendars_entries(&calendars, &years)),
        Err(error) => {
            let mut message = String::new();
            push_str(&mut message, "failed to parse iCal: ");
            push_str(&mut message, error.as_str());
            Err(message)
        },
    }
}

/// `events`, or `None` where some event's recurrence rule repeats its start date without end
/// (a zero interval with neither a count nor an end date before the start), on which
/// `events` would never return.
pub fn checked_events(ical_text: &str, years: RangeInclusive<i32>) -> (r: Option<
    Result<Vec<(Date, String)>, String>,
>)
    ensures
        match parsed_calendars(ical_text@) {
            Ok(cals) => if some_event_repeats_forever(cals, years@) {
                r is None
            } else {
                r matches Some(Ok(v)) && is_stable_date_sort(
                    entries_view(v@),
                    all_entries(cals, years@),
                )
            },
            Err(msg) => r matches Some(Err(e)) && e@ == parse_failure(msg),
        },
{
    match parse_calendars(ical_text) {
        Ok(calendars) => {
            let ghost cals = crate::ics::calendars_view(calendars@);
            let mut c: usize = 0;
            while c < calendars.len()
                invariant
                    c <= calendars.len(),
                    cals == crate::ics::calendars_view(calendars@),
                    parsed_calendars(ical_text@) == Ok::<_, Seq<char>>(cals),
                    forall|ci: int, ei: int|
                        0 <= ci < c && 0 <= ei < cals[ci].len() ==> !event_repeats_forever(
                            #[trigger] cals[ci][ei],
                            years@,
                        ),
                decreases calendars.len() - c,
            {
                let calendar = &calendars[c];
                let mut e: usize = 0;
                while e < calendar.events.len()
                    invariant
                        c < calendars.len(),
                        calendar == &calendars[c as int],
                        cals == crate::ics::calendars_view(calendars@),
                        parsed_calendars(ical_text@) == Ok::<_, Seq<char>>(cals),
                        e <= calendar.events.len(),
                        forall|ci: int, ei: int|
                            0 <= ci < c && 0 <= ei < cals[ci].len() ==> !event_repeats_forever(
                                #[trigger] cals[ci][ei],
                                years@,
                            ),
                        forall|ei: int|
                            0 <= ei < e ==> !event_repeats_forever(
                                #[trigger] cals[c as int][ei],
                                years@,
                            ),
                    decreases calendar.events.len() - e,
                {
                    assert(cals[c as int][e as int] == calendar.events@[e as int]@);
                    if repeats_without_end(&calendar.events[e], &years) {
                        assert(some_event_repeats_forever(cals, years@)) by {
                            assert(event_repeats_forever(cals[c as int][e as int], years@));
                        }
                        return None;
                    }
                    e += 1;
                }
                c += 1;
            }
            Some(events(ical_text, years))
        },
        Err(error) => {
            let mut message = String::new();
            push_str(&mut message, "failed to parse iCal: ");
            push_str(&mut message, error.as_str());
            Some(Err(message))
        },
    }
}

} // verus!
