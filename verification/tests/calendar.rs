use mdcal::calendar::{
    checked_events, checked_expand_rrule_events, events, expand_rrule_events, parse_ical_date, parse_rrule, Frequency};
use mdcal::date::Date;

fn date(year: i32, month: u32, day: u32) -> Date {
    Date::new(year, month, day).expect("a valid date")
}

fn iso(d: &Date) -> String {
    format!("{:04}-{:02}-{:02}", d.year(), d.month(), d.day())
}

fn calendar_of(events: &[&str]) -> String {
    let mut text = String::from("BEGIN:VCALENDAR\n");
    for event in events {
        text.push_str("BEGIN:VEVENT\n");
        text.push_str(event);
        text.push_str("END:VEVENT\n");
    }
    text.push_str("END:VCALENDAR\n");
    text
}

fn listed(entries: Vec<(Date, String)>) -> Vec<(String, String)> {
    entries.into_iter().map(|(d, summary)| (iso(&d), summary)).collect()
}

#[test]
fn recurring_multi_day_events_fill_each_day() {
    let ical_text = "BEGIN:VCALENDAR\nBEGIN:VEVENT\nDTSTART:20260110\nDTEND:20260112\nRRULE:FREQ=WEEKLY;COUNT=2\nSUMMARY:Team meeting\nEND:VEVENT\nEND:VCALENDAR\n";

    let events = events(ical_text, 2026..=2026).expect("calendar should parse");
    let dates: Vec<_> = events.into_iter().map(|(date, summary)| (iso(&date), summary)).collect();

    assert_eq!(
        dates,
        vec![
            ("2026-01-10".to_string(), "Team meeting".to_string()),
            ("2026-01-11".to_string(), "Team meeting".to_string()),
            ("2026-01-17".to_string(), "Team meeting".to_string()),
            ("2026-01-18".to_string(), "Team meeting".to_string()),
        ]
    );
}

#[test]
fn ical_dates_parse_with_or_without_time() {
    assert_eq!(parse_ical_date("20260110"), Some(date(2026, 1, 10)));
    assert_eq!(parse_ical_date("20260110T093000Z"), Some(date(2026, 1, 10)));
    assert_eq!(parse_ical_date("20240229"), Some(date(2024, 2, 29)));
}

#[test]
fn ical_dates_reject_what_is_no_date() {
    assert_eq!(parse_ical_date("2026-01-10"), None);
    assert_eq!(parse_ical_date(""), None);
    assert_eq!(parse_ical_date("20260230"), None);
    assert_eq!(parse_ical_date("20250229"), None);
    assert_eq!(parse_ical_date("T20260110"), None);
}

#[test]
fn rrule_reads_frequency_interval_count_and_until() {
    let rule = parse_rrule("FREQ=WEEKLY;COUNT=2").expect("a rule");
    assert_eq!(rule.frequency, Frequency::Weekly);
    assert_eq!(rule.interval, 1);
    assert_eq!(rule.count, Some(2));
    assert_eq!(rule.until, None);

    let rule = parse_rrule("FREQ=DAILY;INTERVAL=3;UNTIL=20260120T000000Z").expect("a rule");
    assert_eq!(rule.frequency, Frequency::Daily);
    assert_eq!(rule.interval, 3);
    assert_eq!(rule.count, None);
    assert_eq!(rule.until, Some(date(2026, 1, 20)));

    let rule = parse_rrule("FREQ=MONTHLY;BYDAY=MO").expect("a rule");
    assert_eq!(rule.frequency, Frequency::Monthly);

    let rule = parse_rrule("FREQ=DAILY;FREQ=YEARLY").expect("a rule");
    assert_eq!(rule.frequency, Frequency::Yearly);
}

#[test]
fn rrule_keeps_going_past_a_bad_count_or_until() {
    let rule = parse_rrule("FREQ=DAILY;COUNT=many;UNTIL=soon").expect("a rule");
    assert_eq!(rule.count, None);
    assert_eq!(rule.until, None);
}

#[test]
fn rrule_refuses_missing_or_unknown_frequency_and_bad_parts() {
    assert!(parse_rrule("COUNT=2").is_none());
    assert!(parse_rrule("FREQ=HOURLY").is_none());
    assert!(parse_rrule("FREQ=DAILY;INTERVAL=x").is_none());
    assert!(parse_rrule("FREQ=DAILY;INTERVAL=-1").is_none());
    assert!(parse_rrule("FREQ=DAILY;COUNT").is_none());
    assert!(parse_rrule("").is_none());
}

#[test]
fn rrule_expansion_steps_by_the_interval() {
    let dates = expand_rrule_events(date(2026, 1, 10), "FREQ=DAILY;INTERVAL=2;COUNT=3");
    assert_eq!(dates, vec![date(2026, 1, 10), date(2026, 1, 12), date(2026, 1, 14)]);
}

#[test]
fn rrule_expansion_clamps_month_ends() {
    let dates = expand_rrule_events(date(2026, 1, 31), "FREQ=MONTHLY;COUNT=3");
    assert_eq!(dates, vec![date(2026, 1, 31), date(2026, 2, 28), date(2026, 3, 28)]);
    let dates = expand_rrule_events(date(2024, 2, 29), "FREQ=YEARLY;COUNT=2");
    assert_eq!(dates, vec![date(2024, 2, 29), date(2025, 2, 28)]);
}

#[test]
fn rrule_expansion_stops_at_until() {
    let dates = expand_rrule_events(date(2026, 1, 10), "FREQ=WEEKLY;UNTIL=20260124");
    assert_eq!(dates, vec![date(2026, 1, 10), date(2026, 1, 17), date(2026, 1, 24)]);
    let dates = expand_rrule_events(date(2026, 1, 10), "FREQ=WEEKLY;UNTIL=20260101");
    assert!(dates.is_empty());
}

#[test]
fn rrule_expansion_gives_the_start_even_for_a_zero_count() {
    let dates = expand_rrule_events(date(2026, 1, 10), "FREQ=DAILY;COUNT=0");
    assert_eq!(dates, vec![date(2026, 1, 10)]);
    let dates = expand_rrule_events(date(2026, 1, 10), "FREQ=DAILY;INTERVAL=0;COUNT=3");
    assert_eq!(dates, vec![date(2026, 1, 10), date(2026, 1, 10), date(2026, 1, 10)]);
}

#[test]
fn rrule_expansion_without_a_rule_is_empty() {
    assert!(expand_rrule_events(date(2026, 1, 10), "COUNT=3").is_empty());
}

#[test]
fn events_are_sorted_by_date_and_stable_within_a_day() {
    let text = calendar_of(&[
        "DTSTART:20260107\nSUMMARY:Later\n",
        "DTSTART:20260105\nSUMMARY:First\n",
        "DTSTART:20260107\nSUMMARY:Also later\n",
    ]);
    let entries = events(&text, 2026..=2026).expect("calendar should parse");
    assert_eq!(
        listed(entries),
        vec![
            ("2026-01-05".to_string(), "First".to_string()),
            ("2026-01-07".to_string(), "Later".to_string()),
            ("2026-01-07".to_string(), "Also later".to_string()),
        ]
    );
}

#[test]
fn events_keep_only_the_years_asked_for() {
    let text = calendar_of(&[
        "DTSTART:20251230\nDTEND:20260103\nSUMMARY:Holiday\n",
        "DTSTART:20250601\nSUMMARY:Summer\n",
    ]);
    let entries = events(&text, 2026..=2026).expect("calendar should parse");
    assert!(entries.is_empty());
    let entries = events(&text, 2025..=2026).expect("calendar should parse");
    assert_eq!(
        listed(entries),
        vec![
            ("2025-06-01".to_string(), "Summer".to_string()),
            ("2025-12-30".to_string(), "Holiday".to_string()),
            ("2025-12-31".to_string(), "Holiday".to_string()),
            ("2026-01-01".to_string(), "Holiday".to_string()),
            ("2026-01-02".to_string(), "Holiday".to_string()),
        ]
    );
}

#[test]
fn events_with_a_timed_end_include_the_end_day() {
    let text = calendar_of(&["DTSTART:20260110T090000\nDTEND:20260111T100000\nSUMMARY:Trip\n"]);
    let entries = events(&text, 2026..=2026).expect("calendar should parse");
    assert_eq!(
        listed(entries),
        vec![
            ("2026-01-10".to_string(), "Trip".to_string()),
            ("2026-01-11".to_string(), "Trip".to_string()),
        ]
    );
}

#[test]
fn events_without_summary_or_start_are_left_out() {
    let text = calendar_of(&["DTSTART:20260110\n", "SUMMARY:Nowhen\n", "DTSTART:bad\nSUMMARY:Bad\n"]);
    let entries = events(&text, 2026..=2026).expect("calendar should parse");
    assert!(entries.is_empty());
}

#[test]
fn events_with_an_unreadable_rule_are_left_out() {
    let text = calendar_of(&["DTSTART:20260110\nRRULE:FREQ=SECONDLY\nSUMMARY:Odd\n"]);
    let entries = events(&text, 2026..=2026).expect("calendar should parse");
    assert!(entries.is_empty());
}

#[test]
fn events_report_a_text_that_is_no_calendar() {
    let result = events("HELLO:WORLD\n", 2026..=2026);
    assert_eq!(result, Err("failed to parse iCal: missing header".to_string()));
}

#[test]
fn events_of_an_empty_text_are_none() {
    assert_eq!(events("", 2026..=2026), Ok(Vec::new()));
}

#[test]
fn checked_events_refuse_a_rule_that_never_ends() {
    let text = calendar_of(&["DTSTART:20260110\nRRULE:FREQ=DAILY;INTERVAL=0\nSUMMARY:Stuck\n"]);
    assert!(checked_events(&text, 2026..=2026).is_none());
}

#[test]
fn checked_events_agree_with_events_otherwise() {
    let text = calendar_of(&["DTSTART:20260110\nRRULE:FREQ=DAILY;COUNT=2\nSUMMARY:Twice\n"]);
    let checked = checked_events(&text, 2026..=2026).expect("rule ends");
    assert_eq!(checked, events(&text, 2026..=2026));
    assert_eq!(checked.map(listed).expect("calendar should parse").len(), 2);
}

#[test]
fn checked_expansion_refuses_only_a_rule_that_never_ends() {
    assert_eq!(checked_expand_rrule_events(date(2026, 1, 10), "FREQ=DAILY;INTERVAL=0"), None);
    assert_eq!(
        checked_expand_rrule_events(date(2026, 1, 10), "FREQ=DAILY;INTERVAL=0;UNTIL=20260101"),
        Some(Vec::new())
    );
    assert_eq!(
        checked_expand_rrule_events(date(2026, 1, 10), "FREQ=WEEKLY;COUNT=2"),
        Some(vec![date(2026, 1, 10), date(2026, 1, 17)])
    );
    assert_eq!(checked_expand_rrule_events(date(2026, 1, 10), "FREQ=NEVER"), Some(Vec::new()));
}

#[test]
fn events_that_cannot_show_add_nothing() {
    let base = calendar_of(&["DTSTART:20260110\nSUMMARY:Kept\n"]);
    let more = calendar_of(&[
        "DTSTART:20260111\n",
        "DTSTART:20260110\nSUMMARY:Kept\n",
        "DTSTART:20250111\nSUMMARY:Other year\n",
        "DTSTART:20260112\nRRULE:FREQ=FORTNIGHTLY\nSUMMARY:Unreadable rule\n",
    ]);
    assert_eq!(events(&more, 2026..=2026), events(&base, 2026..=2026));
}
