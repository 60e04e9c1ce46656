use mdcal::date::Date;
use mdcal::html::{self, calendar_html, escape_html_cell};
use mdcal::i18n::{get, Strings};
use mdcal::markdown::{self, calendar_markdown, escape_markdown_cell, pad_header};
use mdcal::report::{month3_markdown_for, month3_months, year_html_for, year_markdown_for, year_months};

fn date(year: i32, month: u32, day: u32) -> Date {
    Date::new(year, month, day).expect("a valid date")
}

#[test]
fn markdown_cells_escape_pipes_and_line_breaks() {
    assert_eq!(escape_markdown_cell("a|b\nc"), "a\\|b<br>c");
    assert_eq!(escape_markdown_cell("plain text"), "plain text");
    assert_eq!(escape_markdown_cell(""), "");
}

#[test]
fn html_cells_escape_markup_and_line_breaks() {
    assert_eq!(escape_html_cell("<a&b>\nc"), "&lt;a&amp;b&gt;<br>c");
    assert_eq!(escape_html_cell("Tom & Jerry"), "Tom &amp; Jerry");
    assert_eq!(escape_html_cell("plain"), "plain");
}

#[test]
fn headers_are_centred_with_the_extra_space_on_the_right() {
    assert_eq!(pad_header("May", 7), "  May  ");
    assert_eq!(pad_header("June", 7), " June  ");
    assert_eq!(pad_header("", 2), "  ");
    assert_eq!(pad_header("September", 3), "September");
}

#[test]
fn month_names_come_from_the_strings() {
    let en = Strings::en();
    assert_eq!(markdown::month_name(&en, 1), "January");
    assert_eq!(markdown::month_name(&en, 12), "December");
    assert_eq!(markdown::month_name(&en, 13), "");
    assert_eq!(html::month_name(&get("da"), 3), "Marts");
}

#[test]
fn weekday_names_start_on_monday() {
    let en = Strings::en();
    assert_eq!(markdown::weekday_name(&en, date(2026, 1, 12)), "Mo");
    assert_eq!(markdown::weekday_name(&en, date(2026, 1, 18)), "Su");
    assert_eq!(html::weekday_name(&get("da"), date(2026, 1, 17)), "Lø");
}

#[test]
fn locales_pick_danish_or_fall_back_to_english() {
    let da = get("da");
    assert_eq!(da.months[0], "Januar");
    assert_eq!(da.weekdays[6], "Sø");
    assert_eq!(da.week, "Uge");
    let other = get("fr");
    assert_eq!(other.months[2], "March");
    assert_eq!(other.week, "Week");
    assert_eq!(Strings::default().months, Strings::en().months);
    assert_eq!(Strings::default().weekdays, ["Mo", "Tu", "We", "Th", "Fr", "Sa", "Su"]);
}

#[test]
fn year_months_are_the_twelve_months() {
    let months = year_months(2026);
    assert_eq!(months.len(), 12);
    assert_eq!(months[0], (2026, 1));
    assert_eq!(months[11], (2026, 12));
}

#[test]
fn three_months_wrap_into_the_next_year() {
    assert_eq!(month3_months(2025, 11), vec![(2025, 11), (2025, 12), (2026, 1)]);
    assert_eq!(month3_months(2026, 3), vec![(2026, 3), (2026, 4), (2026, 5)]);
}

#[test]
fn markdown_table_of_one_month() {
    let events = vec![(date(2026, 2, 2), "Talk".to_string())];
    let table = calendar_markdown(&events, &[(2026, 2)], &Strings::en());
    let lines: Vec<&str> = table.split('\n').collect();
    assert_eq!(lines.len(), 34);
    assert_eq!(lines[33], "");
    assert_eq!(lines[0], "|    |    February    |");
    assert_eq!(lines[1], "| -- | -------------- |");
    assert_eq!(lines[2], "| 1  | Su             |");
    assert_eq!(lines[3], "| 2  | Mo Talk[Week6] |");
    assert_eq!(lines[10], "| 9  | Mo     [Week7] |");
    assert_eq!(lines[11], "| 10 | Tu             |");
    assert_eq!(lines[30], "| 29 |                |");
}

#[test]
fn markdown_table_joins_entries_of_a_day() {
    let events = vec![
        (date(2026, 2, 3), "A|B".to_string()),
        (date(2026, 2, 3), "C".to_string()),
        (date(2026, 3, 3), "Elsewhere".to_string()),
    ];
    let table = calendar_markdown(&events, &[(2026, 2)], &Strings::en());
    let lines: Vec<&str> = table.split('\n').collect();
    assert_eq!(lines[4], "| 3  | Tu A\\|B<br>C |");
    assert!(!table.contains("Elsewhere"));
}

#[test]
fn html_page_of_one_month() {
    let events = vec![(date(2026, 2, 2), "Talk".to_string())];
    let page = calendar_html(&events, &[(2026, 2)], &Strings::en());
    assert!(page.starts_with("<!DOCTYPE html>\n<html>\n<head>\n<meta charset=\"utf-8\">\n"));
    assert!(page.contains("<th>February</th>\n"));
    assert!(page.contains("<td class=\"weekend\">Su 1    </td>\n"));
    assert!(page.contains("<td>Mo 2 Talk [Week 6]</td>\n"));
    assert!(page.contains("<td>Mo 9 [Week 7]</td>\n"));
    assert!(page.contains("<td>        </td>\n"));
    assert!(page.ends_with("</tbody>\n</table>\n</body>\n</html>"));
    assert_eq!(page.matches("<tr>\n").count(), 32);
}

#[test]
fn year_markdown_has_every_month() {
    let text = "BEGIN:VCALENDAR\nBEGIN:VEVENT\nDTSTART:20260704\nSUMMARY:Fireworks\nEND:VEVENT\nEND:VCALENDAR\n";
    let table = year_markdown_for(text, &Strings::en(), 2026).expect("rules end").expect("parses");
    let header = table.split('\n').next().expect("a header");
    for name in Strings::en().months {
        assert!(header.contains(name));
    }
    assert!(table.contains("Sa Fireworks"));
    assert_eq!(table.split('\n').count(), 34);
}

#[test]
fn year_html_reports_a_bad_feed() {
    let result = year_html_for("HELLO:WORLD\n", &Strings::en(), 2026);
    assert_eq!(result, Some(Err("failed to parse iCal: missing header".to_string())));
}

#[test]
fn month3_markdown_spans_the_turn_of_the_year() {
    let text = "BEGIN:VCALENDAR\nBEGIN:VEVENT\nDTSTART:20260102\nSUMMARY:Back\nEND:VEVENT\nEND:VCALENDAR\n";
    let table = month3_markdown_for(text, &get("da"), 2025, 12).expect("rules end").expect("parses");
    let header = table.split('\n').next().expect("a header");
    assert!(header.contains("December"));
    assert!(header.contains("Januar"));
    assert!(header.contains("Februar"));
    assert!(table.contains("Fr Back"));
}

#[test]
fn rendering_refuses_a_rule_that_never_ends() {
    let text = "BEGIN:VCALENDAR\nBEGIN:VEVENT\nDTSTART:20260102\nRRULE:FREQ=WEEKLY;INTERVAL=0\nSUMMARY:Stuck\nEND:VEVENT\nEND:VCALENDAR\n";
    assert!(year_markdown_for(text, &Strings::en(), 2026).is_none());
}

#[test]
fn week_labels_follow_iso_weeks_across_the_year() {
    let en = Strings::en();
    let dec_2020 = calendar_markdown(&[], &[(2020, 12)], &en);
    let lines: Vec<&str> = dec_2020.split('\n').collect();
    assert!(lines[29].starts_with("| 28 | Mo"));
    assert!(lines[29].contains("[Week53]"));
    let dec_2024 = calendar_markdown(&[], &[(2024, 12)], &en);
    let lines: Vec<&str> = dec_2024.split('\n').collect();
    assert!(lines[31].starts_with("| 30 | Mo"));
    assert!(lines[31].contains("[Week1]"));
    let jan_2021 = calendar_markdown(&[], &[(2021, 1)], &en);
    let lines: Vec<&str> = jan_2021.split('\n').collect();
    assert!(lines[5].contains("[Week1]"));
}

#[test]
fn tables_ignore_entries_outside_their_months() {
    let en = Strings::en();
    let months = [(2026, 2), (2026, 3)];
    let base = vec![(date(2026, 2, 2), "Talk".to_string()), (date(2026, 3, 9), "Trip".to_string())];
    let mut more = base.clone();
    more.insert(1, (date(2026, 4, 1), "A much longer summary elsewhere".to_string()));
    assert_eq!(calendar_markdown(&more, &months, &en), calendar_markdown(&base, &months, &en));
    assert_eq!(calendar_html(&more, &months, &en), calendar_html(&base, &months, &en));
}

#[test]
fn tables_depend_only_on_each_dates_order() {
    let en = Strings::en();
    let months = [(2026, 2)];
    let a = vec![
        (date(2026, 2, 2), "First".to_string()),
        (date(2026, 2, 5), "Other".to_string()),
        (date(2026, 2, 2), "Second".to_string()),
    ];
    let b = vec![
        (date(2026, 2, 5), "Other".to_string()),
        (date(2026, 2, 2), "First".to_string()),
        (date(2026, 2, 2), "Second".to_string()),
    ];
    assert_eq!(calendar_markdown(&a, &months, &en), calendar_markdown(&b, &months, &en));
    assert_eq!(calendar_html(&a, &months, &en), calendar_html(&b, &months, &en));
    let swapped = vec![
        (date(2026, 2, 2), "Second".to_string()),
        (date(2026, 2, 5), "Other".to_string()),
        (date(2026, 2, 2), "First".to_string()),
    ];
    assert_ne!(calendar_markdown(&a, &months, &en), calendar_markdown(&swapped, &months, &en));
}

#[test]
fn escaping_loses_nothing() {
    for value in ["a|b\nc", "x & y <z> \n", "&lt; is not <", "\\| kept", "plain"] {
        let html_text = escape_html_cell(value);
        let back = html_text
            .replace("<br>", "\n")
            .replace("&gt;", ">")
            .replace("&lt;", "<")
            .replace("&amp;", "&");
        assert_eq!(back, value);
    }
    for value in ["a|b\nc", "pipes | and | more", "\\| kept", "plain"] {
        let md_text = escape_markdown_cell(value);
        let mut back = String::new();
        let chars: Vec<char> = md_text.chars().collect();
        let mut i = 0;
        while i < chars.len() {
            if chars[i] == '\\' && i + 1 < chars.len() && chars[i + 1] == '|' {
                back.push('|');
                i += 2;
            } else if chars[i..].starts_with(&['<', 'b', 'r', '>']) {
                back.push('\n');
                i += 4;
            } else {
                back.push(chars[i]);
                i += 1;
            }
        }
        assert_eq!(back, value);
    }
}
