# mdcal

`mdcal` downloads an iCal feed and renders it as a markdown table or an HTML page:
the current year, or the current month and the two after it, one column per month and
one row per day of the month.

The library in `src/` is verified with Verus:

- `date` — calendar dates as chrono represents them, with a day-number model;
- `text` — splitting, decimal numbers, padding and UTF-8 lengths;
- `ics` — the events of a feed as the `ical` crate parses them;
- `calendar` — `RRULE` values, recurrence expansion, the days each event covers, and
  the sorted entries of a feed;
- `cells` — which entries fall on a day of a month column;
- `markdown`, `html` — the two layouts;
- `i18n` — English and Danish month and weekday names;
- `report` — the year and three-month calendars, for a given date or for today.

`app/main.rs` is the command line: argument parsing, the download, and writing the
result.

```bash
mdcal https://example.com/calendar.ics year
mdcal https://example.com/calendar.ics month3 --format html --lang da --file out.html
```
