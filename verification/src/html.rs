//! The calendar as an HTML page: a table with one column per month, one row per day.
use vstd::prelude::*;

use crate::calendar::{entries_view, on_date};
use crate::cells::{
    entry_on, lemma_outside_entry_same_cells, lemma_same_dates_same_cells, lemma_summaries_step,
    month_name_of, same_cells, summaries_on,
};
use crate::date::{
    is_valid_date, iso_week, iso_week_of, weekday_from_monday, weekday_number, ymd, Date, Ymd,
};
use crate::i18n::{Strings, StringsView};
use crate::text::{
    byte_len, chars_of, decimal, join, lemma_byte_len_add, lemma_byte_len_ascii, pad_right,
    push_char, push_decimal, push_padded, push_repeat, push_str, repeat_char, sat_sub, spaces,
    str_len,
};

verus! {

/// A character as it stands in an HTML cell: `&`, `<` and `>` as entities, a line break as
/// `<br>`.
pub open spec fn html_escape_char(c: char) -> Seq<char> {
    if c == '&' {
        seq!['&', 'a', 'm', 'p', ';']
    } else if c == '<' {
        seq!['&', 'l', 't', ';']
    } else if c == '>' {
        seq!['&', 'g', 't', ';']
    } else if c == '\n' {
        seq!['<', 'b', 'r', '>']
    } else {
        seq![c]
    }
}

/// A text as it stands in an HTML cell.
pub open spec fn html_escape(s: Seq<char>) -> Seq<char>
    decreases s.len(),
{
    if s.len() == 0 {
        seq![]
    } else {
        html_escape(s.drop_last()) + html_escape_char(s.last())
    }
}

fn push_html_escaped(out: &mut String, s: &str)
    ensures
        final(out)@ == old(out)@ + html_escape(s@),
{
    let cs = chars_of(s);
    let mut i: usize = 0;
    assert(s@.take(0) =~= Seq::<char>::empty());
    assert(old(out)@ + html_escape(s@.take(0)) =~= old(out)@);
    while i < cs.len()
        invariant
            cs@ == s@,
            i <= cs.len(),
            out@ == old(out)@ + html_escape(s@.take(i as int)),
        decreases cs.len() - i,
    {
        let c = cs[i];
        let ghost before = out@;
        if c == '&' {
            push_char(out, '&');
            push_char(out, 'a');
            push_char(out, 'm');
            push_char(out, 'p');
            push_char(out, ';');
        } else if c == '<' {
            push_char(out, '&');
            push_char(out, 'l');
            push_char(out, 't');
            push_char(out, ';');
        } else if c == '>' {
            push_char(out, '&');
            push_char(out, 'g');
            push_char(out, 't');
            push_char(out, ';');
        } else if c == '\n' {
            push_char(out, '<');
            push_char(out, 'b');
            push_char(out, 'r');
            push_char(out, '>');
        } else {
            push_char(out, c);
        }
        assert(out@ =~= before + html_escape_char(c));
        assert(s@.take(i + 1).drop_last() =~= s@.take(i as int));
        assert(out@ =~= old(out)@ + html_escape(s@.take(i + 1)));
        i += 1;
    }
    assert(s@.take(cs.len() as int) =~= s@);
}

/// Escaping leaves no markup but line breaks: the escaped text has no line break character,
/// and each `<` or `>` in it belongs to a `<br>`.
pub proof fn lemma_html_escape_only_breaks(s: Seq<char>)
    ensures
        forall|i: int| 0 <= i < html_escape(s).len() ==> #[trigger] html_escape(s)[i] != '\n',
        forall|i: int|
            0 <= i < html_escape(s).len() && #[trigger] html_escape(s)[i] == '<' ==> i + 4
                <= html_escape(s).len() && html_escape(s).subrange(i, i + 4) == seq![
                '<',
                'b',
                'r',
                '>',
            ],
        forall|i: int|
            0 <= i < html_escape(s).len() && #[trigger] html_escape(s)[i] == '>' ==> i >= 3
                && html_escape(s).subrange(i - 3, i + 1) == seq!['<', 'b', 'r', '>'],
    decreases s.len(),
{
    if s.len() > 0 {
        lemma_html_escape_only_breaks(s.drop_last());
        let a = html_escape(s.drop_last());
        let b = html_escape_char(s.last());
        let r = html_escape(s);
        let br = seq!['<', 'b', 'r', '>'];
        assert(r == a + b);
        assert forall|i: int| 0 <= i < r.len() implies #[trigger] r[i] != '\n' && (r[i] == '<'
            ==> i + 4 <= r.len() && r.subrange(i, i + 4) == br) && (r[i] == '>' ==> i >= 3
            && r.subrange(i - 3, i + 1) == br) by {
            if i < a.len() {
                assert(r[i] == a[i]);
                if a[i] == '<' {
                    assert(r.subrange(i, i + 4) =~= a.subrange(i, i + 4));
                }
                if a[i] == '>' {
                    assert(r.subrange(i - 3, i + 1) =~= a.subrange(i - 3, i + 1));
                }
            } else {
                assert(r[i] == b[i - a.len()]);
                if r[i] == '<' {
                    assert(b == br && i == a.len());
                    assert(r.subrange(i, i + 4) =~= br);
                }
                if r[i] == '>' {
                    assert(b == br && i == a.len() + 3);
                    assert(r.subrange(i - 3, i + 1) =~= br);
                }
            }
        }
    }
}

/// Escaped HTML cell text read back: `&amp;`, `&lt;` and `&gt;` as the characters they
/// stand for, `<br>` as a line break, and any other character as itself.
pub open spec fn html_unescape(t: Seq<char>) -> Seq<char>
    decreases t.len(),
{
    if t.len() == 0 {
        seq![]
    } else if t.len() >= 5 && t[0] == '&' && t[1] == 'a' && t[2] == 'm' && t[3] == 'p' && t[4]
        == ';' {
        seq!['&'] + html_unescape(t.skip(5))
    } else if t.len() >= 4 && t[0] == '&' && t[1] == 'l' && t[2] == 't' && t[3] == ';' {
        seq!['<'] + html_unescape(t.skip(4))
    } else if t.len() >= 4 && t[0] == '&' && t[1] == 'g' && t[2] == 't' && t[3] == ';' {
        seq!['>'] + html_unescape(t.skip(4))
    } else if t.len() >= 4 && t[0] == '<' && t[1] == 'b' && t[2] == 'r' && t[3] == '>' {
        seq!['\n'] + html_unescape(t.skip(4))
    } else {
        seq![t[0]] + html_unescape(t.skip(1))
    }
}

/// Escaping a character followed by a text is escaping the character, then the text.
proof fn lemma_html_escape_front(c: char, s: Seq<char>)
    ensures
        html_escape(seq![c] + s) == html_escape_char(c) + html_escape(s),
    decreases s.len(),
{
    if s.len() == 0 {
        assert(seq![c] + s =~= seq![c]);
        let one = seq![c];
        assert(one.drop_last() =~= Seq::<char>::empty());
        assert(one.last() == c);
        assert(html_escape(one) == html_escape(one.drop_last()) + html_escape_char(one.last()));
        assert(html_escape(one) =~= html_escape_char(c));
        assert(html_escape_char(c) + html_escape(s) =~= html_escape_char(c));
    } else {
        lemma_html_escape_front(c, s.drop_last());
        assert((seq![c] + s).drop_last() =~= seq![c] + s.drop_last());
        assert((seq![c] + s).last() == s.last());
        assert(html_escape_char(c) + html_escape(s) =~= html_escape_char(c) + html_escape(
            s.drop_last(),
        ) + html_escape_char(s.last()));
    }
}

/// Escaping loses nothing: read back, the escaped text of any text is that text.
pub proof fn lemma_html_escape_lossless(s: Seq<char>)
    ensures
        html_unescape(html_escape(s)) == s,
    decreases s.len(),
{
    if s.len() > 0 {
        let c = s[0];
        let r = s.skip(1);
        assert(s =~= seq![c] + r);
        lemma_html_escape_lossless(r);
        lemma_html_escape_front(c, r);
        let x = html_escape(r);
        let t = html_escape(s);
        assert(t == html_escape_char(c) + x);
        if c == '&' {
            assert(t.skip(5) =~= x);
        } else if c == '<' || c == '>' || c == '\n' {
            assert(t.skip(4) =~= x);
        } else {
            assert(t.skip(1) =~= x);
        }
    }
}

/// A text with none of `&`, `<`, `>` and line breaks stands in an HTML cell as it is.
pub proof fn lemma_html_escape_plain(s: Seq<char>)
    requires
        forall|i: int|
            0 <= i < s.len() ==> #[trigger] s[i] != '&' && s[i] != '<' && s[i] != '>' && s[i]
                != '\n',
    ensures
        html_escape(s) == s,
    decreases s.len(),
{
    if s.len() > 0 {
        lemma_html_escape_plain(s.drop_last());
        assert(s.drop_last() + seq![s.last()] =~= s);
    }
}

/// A text as it stands in an HTML cell: `&`, `<` and `>` written as entities and each line
/// break as `<br>`.
pub fn escape_html_cell(value: &str) -> (r: String)
    ensures
        r@ == html_escape(value@),
{
    let mut r = String::new();
    push_html_escaped(&mut r, value);
    assert(r@ =~= html_escape(value@));
    r
}

/// The name of a month; empty for a month after December.
pub fn month_name(s: &Strings, month: u32) -> (r: &'static str)
    requires
        month >= 1,
    ensures
        r@ == month_name_of(s@, month as int),
{
    if month <= 12 {
        s.months[(month - 1) as usize]
    } else {
        proof {
            reveal_strlit("");
        }
        ""
    }
}

/// The name of the weekday of a date.
pub fn weekday_name(s: &Strings, date: Date) -> (r: &'static str)
    ensures
        r@ == s@.weekdays[weekday_from_monday(date@) - 1],
{
    let n = weekday_number(date);
    s.weekdays[(n - 1) as usize]
}

/// The weekday and day of a date, `Mo 12`, and on a Monday the label of its ISO week:
/// `[Week 2]`.
pub open spec fn html_day_prefix(s: StringsView, d: Ymd) -> (Seq<char>, Option<Seq<char>>) {
    let wd = weekday_from_monday(d);
    let name = s.weekdays[wd - 1] + seq![' '] + decimal(d.day as nat);
    if wd == 1 {
        (
            name,
            Some(
                seq!['['] + s.week + seq![' '] + decimal(
                    iso_week_of(d) as nat,
                ) + seq![']'],
            ),
        )
    } else {
        (name, None)
    }
}

fn day_prefix(s: &Strings, date: Date) -> (r: (String, Option<String>))
    ensures
        r.0@ == html_day_prefix(s@, date@).0,
        match (r.1, html_day_prefix(s@, date@).1) {
            (Some(a), Some(b)) => a@ == b,
            (None, None) => true,
            _ => false,
        },
{
    let mut weekday = String::new();
    push_str(&mut weekday, weekday_name(s, date));
    push_char(&mut weekday, ' ');
    push_decimal(&mut weekday, date.day() as u64);
    assert(weekday@ =~= html_day_prefix(s@, date@).0);
    if weekday_number(date) == 1 {
        let mut label = String::new();
        push_char(&mut label, '[');
        push_str(&mut label, s.week);
        push_char(&mut label, ' ');
        push_decimal(&mut label, iso_week(date) as u64);
        push_char(&mut label, ']');
        assert(label@ =~= html_day_prefix(s@, date@).1.unwrap());
        (weekday, Some(label))
    } else {
        (weekday, None)
    }
}

/// The text of the entries on `d` in an HTML cell: their escaped summaries, comma separated.
pub open spec fn html_cell_value(ev: Seq<(Ymd, Seq<char>)>, d: Ymd) -> Seq<char> {
    join(summaries_on(ev, d).map_values(|t: Seq<char>| html_escape(t)), ", "@)
}

/// Whether any entry lies on the date, and the text of those entries in a cell.
fn cell_value(events: &[(Date, String)], year: i32, month: u32, day: u32) -> (r: (bool, String))
    ensures
        r.0 == (summaries_on(entries_view(events@), ymd(year as int, month as int, day as int)).len()
            > 0),
        r.1@ == html_cell_value(entries_view(events@), ymd(year as int, month as int, day as int)),
{
    let ghost ev = entries_view(events@);
    let ghost d = ymd(year as int, month as int, day as int);
    let ghost esc = |t: Seq<char>| html_escape(t);
    let mut found = false;
    let mut value = String::new();
    let mut i: usize = 0;
    assert(ev.take(0).filter(crate::calendar::on_date(d)) =~= Seq::<(Ymd, Seq<char>)>::empty()) by {
        reveal_with_fuel(Seq::filter, 1);
    }
    assert(summaries_on(ev.take(0), d) =~= Seq::<Seq<char>>::empty());
    while i < events.len()
        invariant
            ev == entries_view(events@),
            d == ymd(year as int, month as int, day as int),
            esc == (|t: Seq<char>| html_escape(t)),
            i <= events.len(),
            found == (summaries_on(ev.take(i as int), d).len() > 0),
            value@ == join(summaries_on(ev.take(i as int), d).map_values(esc), ", "@),
        decreases events.len() - i,
    {
        proof {
            lemma_summaries_step(ev, i as int, d);
        }
        let ghost prev = summaries_on(ev.take(i as int), d);
        if entry_on(&events[i], year, month, day) {
            let ghost before = value@;
            if found {
                push_str(&mut value, ", ");
            }
            push_html_escaped(&mut value, events[i].1.as_str());
            proof {
                let next = prev.push(ev[i as int].1);
                assert(next.map_values(esc) =~= prev.map_values(esc).push(html_escape(ev[i as int].1)));
                if prev.len() == 0 {
                    assert(before =~= Seq::<char>::empty());
                    assert(next.map_values(esc).len() == 1);
                } else {
                    assert(next.map_values(esc).drop_last() =~= prev.map_values(esc));
                }
            }
            found = true;
        }
        i += 1;
    }
    assert(ev.take(events.len() as int) =~= ev);
    (found, value)
}

/// What the cell of a day shows: the weekday and day, the entries after a space, and on a
/// Monday the week label pushed to the right edge of the column where there is room; nothing
/// for a day the month does not have.
pub open spec fn html_cell(
    ev: Seq<(Ymd, Seq<char>)>,
    s: StringsView,
    year: int,
    month: int,
    day: int,
    width: int,
) -> Seq<char> {
    let d = ymd(year, month, day);
    let (wd, label) = if is_valid_date(d) {
        html_day_prefix(s, d)
    } else {
        (seq![], None)
    };
    if summaries_on(ev, d).len() > 0 {
        let value = html_cell_value(ev, d);
        match label {
            Some(l) => {
                let padding = sat_sub(width, byte_len(wd) + byte_len(value) + byte_len(l) + 2);
                wd + seq![' '] + value + seq![' '] + spaces(padding) + l
            },
            None => wd + seq![' '] + value,
        }
    } else {
        match label {
            Some(l) => wd + seq![' '] + spaces(sat_sub(width, byte_len(wd) + byte_len(l) + 1)) + l,
            None => wd,
        }
    }
}

fn cell_text(
    events: &[(Date, String)],
    strings: &Strings,
    year: i32,
    month: u32,
    day: u32,
    width: usize,
) -> (r: String)
    ensures
        r@ == html_cell(
            entries_view(events@),
            strings@,
            year as int,
            month as int,
            day as int,
            width as int,
        ),
{
    let (weekday, week_label) = match Date::new(year, month, day) {
        Some(d) => day_prefix(strings, d),
        None => (String::new(), None),
    };
    let (has, value) = cell_value(events, year, month, day);
    let ghost d = ymd(year as int, month as int, day as int);
    let ghost prefix: (Seq<char>, Option<Seq<char>>) = if is_valid_date(d) {
        html_day_prefix(strings@, d)
    } else {
        (seq![], None)
    };
    assert(weekday@ == prefix.0);
    assert(match (week_label, prefix.1) {
        (Some(a), Some(b)) => a@ == b,
        (None, None) => true,
        _ => false,
    });
    proof {
        lemma_byte_len_ascii(' ');
    }
    if has {
        let mut content = String::new();
        push_str(&mut content, weekday.as_str());
        push_char(&mut content, ' ');
        push_str(&mut content, value.as_str());
        match week_label {
            Some(label) => {
                push_char(&mut content, ' ');
                proof {
                    lemma_byte_len_add(weekday@, seq![' ']);
                    lemma_byte_len_add(weekday@ + seq![' '], value@);
                    lemma_byte_len_add(weekday@ + seq![' '] + value@, seq![' ']);
                    assert(content@ =~= weekday@ + seq![' '] + value@ + seq![' ']);
                }
                let head_len = str_len(content.as_str());
                let label_len = str_len(label.as_str());
                let padding = width.saturating_sub(head_len + label_len);
                push_repeat(&mut content, ' ', padding);
                push_str(&mut content, label.as_str());
                assert(repeat_char(' ', padding as int) =~= spaces(padding as int));
                assert(content@ =~= weekday@ + seq![' '] + value@ + seq![' '] + spaces(padding as int)
                    + label@);
                content
            },
            None => {
                assert(content@ =~= weekday@ + seq![' '] + value@);
                content
            },
        }
    } else {
        match week_label {
            Some(label) => {
                let ghost wd = weekday@;
                let mut content = weekday;
                push_char(&mut content, ' ');
                proof {
                    lemma_byte_len_add(wd, seq![' ']);
                    assert(content@ =~= wd + seq![' ']);
                }
                let padding = width.saturating_sub(
                    str_len(content.as_str()) + str_len(label.as_str()),
                );
                push_repeat(&mut content, ' ', padding);
                push_str(&mut content, label.as_str());
                assert(repeat_char(' ', padding as int) =~= spaces(padding as int));
                assert(content@ =~= wd + seq![' '] + spaces(padding as int) + label@);
                content
            },
            None => weekday,
        }
    }
}

/// The start of the page, up to the opening of the header row.
pub open spec fn html_head() -> Seq<char> {
    "<!DOCTYPE html>\n<html>\n<head>\n<meta charset=\"utf-8\">\n"@
        + "<link href=\"https://fonts.googleapis.com/css2?family=Roboto+Mono&display=swap\" rel=\"stylesheet\">\n"@
        + "<style>body { font-family: 'Roboto Mono', monospace; print-color-adjust: exact; -webkit-print-color-adjust: exact; } table { width: 100%; border-collapse: collapse; } td, th { border-bottom: 1px solid #ccc; padding: 4px; text-align: left; } th { background: #f5f5f5; } .weekend { background: #f0f0f0; }</style>\n"@
        + "</head>\n<body>\n<table>\n<thead>\n<tr>\n"@
}

/// The header cells of the first `k` months.
pub open spec fn html_header_cells(months: Seq<(i32, u32)>, s: StringsView, k: int) -> Seq<char>
    decreases k,
{
    if k <= 0 {
        seq![]
    } else {
        html_header_cells(months, s, k - 1) + "<th>"@ + month_name_of(s, months[k - 1].1 as int)
            + "</th>\n"@
    }
}

/// The width of each month's column: the bytes of its name.
pub open spec fn html_widths(months: Seq<(i32, u32)>, s: StringsView) -> Seq<int> {
    months.map_values(|ym: (i32, u32)| byte_len(month_name_of(s, ym.1 as int)))
}

/// The opening of a day's cell, marked as a weekend on Saturdays and Sundays.
pub open spec fn html_td_open(year: int, month: int, day: int) -> Seq<char> {
    let d = ymd(year, month, day);
    if is_valid_date(d) && weekday_from_monday(d) > 5 {
        "<td class=\"weekend\">"@
    } else {
        "<td>"@
    }
}

/// The cells of the first `k` months on day `day`.
pub open spec fn html_row_cells(
    ev: Seq<(Ymd, Seq<char>)>,
    months: Seq<(i32, u32)>,
    s: StringsView,
    widths: Seq<int>,
    day: int,
    k: int,
) -> Seq<char>
    decreases k,
{
    if k <= 0 {
        seq![]
    } else {
        let (y, m) = months[k - 1];
        html_row_cells(ev, months, s, widths, day, k - 1) + html_td_open(y as int, m as int, day)
            + pad_right(html_cell(ev, s, y as int, m as int, day, widths[k - 1]), widths[k - 1])
            + "</td>\n"@
    }
}

/// The rows of days 1 to `k`.
pub open spec fn html_rows(
    ev: Seq<(Ymd, Seq<char>)>,
    months: Seq<(i32, u32)>,
    s: StringsView,
    k: int,
) -> Seq<char>
    decreases k,
{
    if k <= 0 {
        seq![]
    } else {
        html_rows(ev, months, s, k - 1) + "<tr>\n"@ + html_row_cells(
            ev,
            months,
            s,
            html_widths(months, s),
            k,
            months.len() as int,
        ) + "</tr>\n"@
    }
}

/// The whole page: the head, the month names, the rows of days 1 to 31, and the end.
pub open spec fn html_page(ev: Seq<(Ymd, Seq<char>)>, months: Seq<(i32, u32)>, s: StringsView) -> Seq<
    char,
> {
    html_head() + html_header_cells(months, s, months.len() as int) + "</tr>\n</thead>\n<tbody>\n"@
        + html_rows(ev, months, s, 31) + "</tbody>\n</table>\n</body>\n</html>"@
}

pub open spec fn widths_view(v: Seq<usize>) -> Seq<int> {
    v.map_values(|w: usize| w as int)
}

fn push_row(
    out: &mut String,
    events: &[(Date, String)],
    months: &[(i32, u32)],
    strings: &Strings,
    widths: &Vec<usize>,
    day: u32,
)
    requires
        widths_view(widths@) == html_widths(months@, strings@),
    ensures
        final(out)@ == old(out)@ + "<tr>\n"@ + html_row_cells(
            entries_view(events@),
            months@,
            strings@,
            widths_view(widths@),
            day as int,
            months@.len() as int,
        ) + "</tr>\n"@,
{
    let ghost wv = widths_view(widths@);
    let ghost ev = entries_view(events@);
    push_str(out, "<tr>\n");
    let ghost start = out@;
    let mut i: usize = 0;
    assert(widths.len() == months.len()) by {
        assert(wv.len() == html_widths(months@, strings@).len());
    }
    while i < months.len()
        invariant
            i <= months.len(),
            widths.len() == months.len(),
            wv == widths_view(widths@),
            ev == entries_view(events@),
            out@ == start + html_row_cells(ev, months@, strings@, wv, day as int, i as int),
        decreases months.len() - i,
    {
        let (year, month) = months[i];
        let cell_day = Date::new(year, month, day);
        let is_weekend = match cell_day {
            Some(d) => weekday_number(d) > 5,
            None => false,
        };
        if is_weekend {
            push_str(out, "<td class=\"weekend\">");
        } else {
            push_str(out, "<td>");
        }
        let content = cell_text(events, strings, year, month, day, widths[i]);
        push_padded(out, content.as_str(), widths[i]);
        push_str(out, "</td>\n");
        assert(out@ =~= start + html_row_cells(ev, months@, strings@, wv, day as int, i + 1));
        i += 1;
    }
    push_str(out, "</tr>\n");
}

/// Renders calendar entries as an HTML page: a table with a column for each (year, month) of
/// `months`, a row for each day from 1 to 31, and in each cell the weekday and day, the
/// summaries of the entries of that date, and on Mondays the ISO week; weekend days are
/// marked.
pub fn calendar_html(events: &[(Date, String)], months: &[(i32, u32)], strings: &Strings) -> (r: String)
    requires
        forall|i: int| 0 <= i < months.len() ==> #[trigger] months[i].1 >= 1,
    ensures
        r@ == html_page(entries_view(events@), months@, strings@),
{
    let ghost ev = entries_view(events@);
    let mut widths: Vec<usize> = Vec::new();
    let mut i: usize = 0;
    while i < months.len()
        invariant
            i <= months.len(),
            widths.len() == i,
            forall|j: int| 0 <= j < months.len() ==> #[trigger] months[j].1 >= 1,
            widths_view(widths@) == html_widths(months@, strings@).take(i as int),
        decreases months.len() - i,
    {
        let (_year, month) = months[i];
        let width = str_len(month_name(strings, month));
        assert(html_widths(months@, strings@)[i as int] == byte_len(
            month_name_of(strings@, month as int),
        ));
        widths.push(width);
        assert(widths_view(widths@) =~= html_widths(months@, strings@).take(i + 1));
        i += 1;
    }
    assert(html_widths(months@, strings@).take(months.len() as int) =~= html_widths(
        months@,
        strings@,
    ));
    let mut html = String::new();
    push_str(&mut html, "<!DOCTYPE html>\n<html>\n<head>\n<meta charset=\"utf-8\">\n");
    push_str(
        &mut html,
        "<link href=\"https://fonts.googleapis.com/css2?family=Roboto+Mono&display=swap\" rel=\"stylesheet\">\n",
    );
    push_str(
        &mut html,
        "<style>body { font-family: 'Roboto Mono', monospace; print-color-adjust: exact; -webkit-print-color-adjust: exact; } table { width: 100%; border-collapse: collapse; } td, th { border-bottom: 1px solid #ccc; padding: 4px; text-align: left; } th { background: #f5f5f5; } .weekend { background: #f0f0f0; }</style>\n",
    );
    push_str(&mut html, "</head>\n<body>\n<table>\n<thead>\n<tr>\n");
    assert(html@ =~= html_head());
    let mut i: usize = 0;
    while i < months.len()
        invariant
            i <= months.len(),
            forall|j: int| 0 <= j < months.len() ==> #[trigger] months[j].1 >= 1,
            html@ == html_head() + html_header_cells(months@, strings@, i as int),
        decreases months.len() - i,
    {
        let (_year, month) = months[i];
        push_str(&mut html, "<th>");
        push_str(&mut html, month_name(strings, month));
        push_str(&mut html, "</th>\n");
        assert(html@ =~= html_head() + html_header_cells(months@, strings@, i + 1));
        i += 1;
    }
    push_str(&mut html, "</tr>\n</thead>\n<tbody>\n");
    let ghost top = html@;
    assert(top + html_rows(ev, months@, strings@, 0) =~= top);
    let mut day: u32 = 1;
    while day <= 31
        invariant
            1 <= day <= 32,
            widths_view(widths@) == html_widths(months@, strings@),
            ev == entries_view(events@),
            html@ == top + html_rows(ev, months@, strings@, day - 1),
        decreases 32 - day,
    {
        push_row(&mut html, events, months, strings, &widths, day);
        assert(html@ =~= top + html_rows(ev, months@, strings@, day as int));
        day += 1;
    }
    push_str(&mut html, "</tbody>\n</table>\n</body>\n</html>");
    html
}


/// Under the same cells, the first `k` cells of a day's row are the same.
proof fn lemma_html_row_cells_same(
    a: Seq<(Ymd, Seq<char>)>,
    b: Seq<(Ymd, Seq<char>)>,
    months: Seq<(i32, u32)>,
    s: StringsView,
    widths: Seq<int>,
    day: int,
    k: int,
)
    requires
        same_cells(a, b, months),
        k <= months.len(),
    ensures
        html_row_cells(a, months, s, widths, day, k) == html_row_cells(b, months, s, widths, day, k),
    decreases k,
{
    if k > 0 {
        lemma_html_row_cells_same(a, b, months, s, widths, day, k - 1);
        let d = ymd(months[k - 1].0 as int, months[k - 1].1 as int, day);
        assert(summaries_on(a, d) == summaries_on(b, d));
        assert(html_cell_value(a, d) == html_cell_value(b, d));
    }
}

/// Under the same cells, the rows of days 1 to `k` are the same.
proof fn lemma_html_rows_same(
    a: Seq<(Ymd, Seq<char>)>,
    b: Seq<(Ymd, Seq<char>)>,
    months: Seq<(i32, u32)>,
    s: StringsView,
    k: int,
)
    requires
        same_cells(a, b, months),
    ensures
        html_rows(a, months, s, k) == html_rows(b, months, s, k),
    decreases k,
{
    if k > 0 {
        lemma_html_rows_same(a, b, months, s, k - 1);
        lemma_html_row_cells_same(a, b, months, s, html_widths(months, s), k, months.len() as int);
    }
}

/// The page depends on the entries only through the summaries, in order, on each day of the
/// listed months: entries that give the same cells give the same page.
pub proof fn lemma_html_same_cells(
    a: Seq<(Ymd, Seq<char>)>,
    b: Seq<(Ymd, Seq<char>)>,
    months: Seq<(i32, u32)>,
    s: StringsView,
)
    requires
        same_cells(a, b, months),
    ensures
        html_page(a, months, s) == html_page(b, months, s),
{
    lemma_html_rows_same(a, b, months, s, 31);
}

/// An entry on a date outside the listed months changes nothing: the page is the same
/// without it.
pub proof fn lemma_html_ignores_other_months(
    a: Seq<(Ymd, Seq<char>)>,
    e: (Ymd, Seq<char>),
    b: Seq<(Ymd, Seq<char>)>,
    months: Seq<(i32, u32)>,
    s: StringsView,
)
    requires
        forall|j: int|
            0 <= j < months.len() ==> !((#[trigger] months[j]).0 as int == e.0.year
                && months[j].1 as int == e.0.month),
    ensures
        html_page(a + seq![e] + b, months, s) == html_page(a + b, months, s),
{
    lemma_outside_entry_same_cells(a, e, b, months);
    lemma_html_same_cells(a + seq![e] + b, a + b, months, s);
}

/// Reordering the entries while each date keeps its entries in the same order gives the same
/// page.
pub proof fn lemma_html_keeps_per_date_order(
    a: Seq<(Ymd, Seq<char>)>,
    b: Seq<(Ymd, Seq<char>)>,
    months: Seq<(i32, u32)>,
    s: StringsView,
)
    requires
        forall|d: Ymd| #[trigger] a.filter(on_date(d)) == b.filter(on_date(d)),
    ensures
        html_page(a, months, s) == html_page(b, months, s),
{
    lemma_same_dates_same_cells(a, b, months);
    lemma_html_same_cells(a, b, months, s);
}


/// The first `k` header cells depend only on the first `k` months.
proof fn lemma_html_header_prefix(a: Seq<(i32, u32)>, b: Seq<(i32, u32)>, s: StringsView, k: int)
    requires
        0 <= k <= a.len(),
    ensures
        html_header_cells(a + b, s, k) == html_header_cells(a, s, k),
    decreases k,
{
    if k > 0 {
        lemma_html_header_prefix(a, b, s, k - 1);
        assert((a + b)[k - 1] == a[k - 1]);
    }
}

/// The header cells of `a` then `b`, through `j` months of `b`.
proof fn lemma_html_header_tail(a: Seq<(i32, u32)>, b: Seq<(i32, u32)>, s: StringsView, j: int)
    requires
        0 <= j <= b.len(),
    ensures
        html_header_cells(a + b, s, a.len() + j) == html_header_cells(a, s, a.len() as int)
            + html_header_cells(b, s, j),
    decreases j,
{
    if j == 0 {
        lemma_html_header_prefix(a, b, s, a.len() as int);
        assert(html_header_cells(a, s, a.len() as int) + html_header_cells(b, s, 0)
            =~= html_header_cells(a, s, a.len() as int));
    } else {
        lemma_html_header_tail(a, b, s, j - 1);
        assert((a + b)[a.len() + j - 1] == b[j - 1]);
        let pa = html_header_cells(a, s, a.len() as int);
        let pb = html_header_cells(b, s, j - 1);
        let name = month_name_of(s, b[j - 1].1 as int);
        assert(pa + pb + "<th>"@ + name + "</th>\n"@ =~= pa + (pb + "<th>"@ + name
            + "</th>\n"@));
    }
}

/// The first `k` cells of a day's row depend only on the first `k` months and widths.
proof fn lemma_html_row_prefix(
    ev: Seq<(Ymd, Seq<char>)>,
    a: Seq<(i32, u32)>,
    b: Seq<(i32, u32)>,
    s: StringsView,
    wa: Seq<int>,
    wb: Seq<int>,
    day: int,
    k: int,
)
    requires
        wa.len() == a.len(),
        0 <= k <= a.len(),
    ensures
        html_row_cells(ev, a + b, s, wa + wb, day, k) == html_row_cells(ev, a, s, wa, day, k),
    decreases k,
{
    if k > 0 {
        lemma_html_row_prefix(ev, a, b, s, wa, wb, day, k - 1);
        assert((a + b)[k - 1] == a[k - 1]);
        assert((wa + wb)[k - 1] == wa[k - 1]);
    }
}

/// The cells of a day's row for `a` then `b`, through `j` months of `b`.
proof fn lemma_html_row_tail(
    ev: Seq<(Ymd, Seq<char>)>,
    a: Seq<(i32, u32)>,
    b: Seq<(i32, u32)>,
    s: StringsView,
    wa: Seq<int>,
    wb: Seq<int>,
    day: int,
    j: int,
)
    requires
        wa.len() == a.len(),
        wb.len() == b.len(),
        0 <= j <= b.len(),
    ensures
        html_row_cells(ev, a + b, s, wa + wb, day, a.len() + j) == html_row_cells(
            ev,
            a,
            s,
            wa,
            day,
            a.len() as int,
        ) + html_row_cells(ev, b, s, wb, day, j),
    decreases j,
{
    if j == 0 {
        lemma_html_row_prefix(ev, a, b, s, wa, wb, day, a.len() as int);
        assert(html_row_cells(ev, a, s, wa, day, a.len() as int) + html_row_cells(
            ev,
            b,
            s,
            wb,
            day,
            0,
        ) =~= html_row_cells(ev, a, s, wa, day, a.len() as int));
    } else {
        lemma_html_row_tail(ev, a, b, s, wa, wb, day, j - 1);
        assert((a + b)[a.len() + j - 1] == b[j - 1]);
        assert((wa + wb)[a.len() + j - 1] == wb[j - 1]);
        let (y, m) = b[j - 1];
        let c = html_td_open(y as int, m as int, day) + pad_right(
            html_cell(ev, s, y as int, m as int, day, wb[j - 1]),
            wb[j - 1],
        ) + "</td>\n"@;
        let pa = html_row_cells(ev, a, s, wa, day, a.len() as int);
        let pb = html_row_cells(ev, b, s, wb, day, j - 1);
        assert(pa + pb + html_td_open(y as int, m as int, day) + pad_right(
            html_cell(ev, s, y as int, m as int, day, wb[j - 1]),
            wb[j - 1],
        ) + "</td>\n"@ =~= pa + (pb + c));
    }
}

/// Each column of the page belongs to one month, in the order the months are listed: the
/// widths, the header row and every day's row of the months `a` followed by the months `b`
/// are those of `a` followed by those of `b`; and for a single month the header cell names
/// that month and the day's cell shows that month's day.
pub proof fn lemma_html_columns(
    ev: Seq<(Ymd, Seq<char>)>,
    a: Seq<(i32, u32)>,
    b: Seq<(i32, u32)>,
    s: StringsView,
    wa: Seq<int>,
    wb: Seq<int>,
    day: int,
)
    requires
        wa.len() == a.len(),
        wb.len() == b.len(),
    ensures
        html_widths(a + b, s) == html_widths(a, s) + html_widths(b, s),
        html_header_cells(a + b, s, (a + b).len() as int) == html_header_cells(
            a,
            s,
            a.len() as int,
        ) + html_header_cells(b, s, b.len() as int),
        html_row_cells(ev, a + b, s, wa + wb, day, (a + b).len() as int) == html_row_cells(
            ev,
            a,
            s,
            wa,
            day,
            a.len() as int,
        ) + html_row_cells(ev, b, s, wb, day, b.len() as int),
        forall|m: (i32, u32)|
            #[trigger] html_header_cells(seq![m], s, 1) == "<th>"@ + month_name_of(s, m.1 as int)
                + "</th>\n"@,
        forall|m: (i32, u32), w: int|
            #[trigger] html_row_cells(ev, seq![m], s, seq![w], day, 1) == html_td_open(
                m.0 as int,
                m.1 as int,
                day,
            ) + pad_right(html_cell(ev, s, m.0 as int, m.1 as int, day, w), w) + "</td>\n"@,
{
    assert(html_widths(a + b, s) =~= html_widths(a, s) + html_widths(b, s));
    lemma_html_header_tail(a, b, s, b.len() as int);
    lemma_html_row_tail(ev, a, b, s, wa, wb, day, b.len() as int);
    assert forall|m: (i32, u32)|
        #[trigger] html_header_cells(seq![m], s, 1) == "<th>"@ + month_name_of(s, m.1 as int)
            + "</th>\n"@ by {
        reveal_with_fuel(html_header_cells, 2);
        assert(seq![m][0] == m);
        assert(Seq::<char>::empty() + "<th>"@ =~= "<th>"@);
    }
    assert forall|m: (i32, u32), w: int|
        #[trigger] html_row_cells(ev, seq![m], s, seq![w], day, 1) == html_td_open(
            m.0 as int,
            m.1 as int,
            day,
        ) + pad_right(html_cell(ev, s, m.0 as int, m.1 as int, day, w), w) + "</td>\n"@ by {
        reveal_with_fuel(html_row_cells, 2);
        assert(seq![m][0] == m);
        assert(seq![w][0] == w);
        let open = html_td_open(m.0 as int, m.1 as int, day);
        assert(Seq::<char>::empty() + open =~= open);
    }
}

/// A day with entries shows, whatever its weekday, its weekday and day, a space and then its
/// entries, at the start of its cell and of the cell padded to its column.
pub proof fn lemma_html_cell_shows_entries(
    ev: Seq<(Ymd, Seq<char>)>,
    s: StringsView,
    year: int,
    month: int,
    day: int,
    width: int,
)
    requires
        is_valid_date(ymd(year, month, day)),
        summaries_on(ev, ymd(year, month, day)).len() > 0,
    ensures
        ({
            let d = ymd(year, month, day);
            let head = html_day_prefix(s, d).0 + seq![' '] + html_cell_value(ev, d);
            let cell = html_cell(ev, s, year, month, day, width);
            &&& head.len() <= cell.len()
            &&& cell.take(head.len() as int) == head
            &&& pad_right(cell, width).take(head.len() as int) == head
        }),
{
    let d = ymd(year, month, day);
    let head = html_day_prefix(s, d).0 + seq![' '] + html_cell_value(ev, d);
    let cell = html_cell(ev, s, year, month, day, width);
    assert(cell.take(head.len() as int) =~= head);
    assert(pad_right(cell, width).take(head.len() as int) =~= head);
}


/// The rows of the days come in the order of the days: the rows of days 1 to `j` begin the
/// rows of days 1 to `k` for `j <= k`, and the row of day `k`, between `<tr>` and `</tr>`,
/// follows those of the days before it.
pub proof fn lemma_html_rows_in_day_order(
    ev: Seq<(Ymd, Seq<char>)>,
    months: Seq<(i32, u32)>,
    s: StringsView,
    j: int,
    k: int,
)
    requires
        0 <= j <= k,
    ensures
        html_rows(ev, months, s, j).len() <= html_rows(ev, months, s, k).len(),
        html_rows(ev, months, s, k).take(html_rows(ev, months, s, j).len() as int) == html_rows(
            ev,
            months,
            s,
            j,
        ),
        k >= 1 ==> html_rows(ev, months, s, k) == html_rows(ev, months, s, k - 1) + "<tr>\n"@
            + html_row_cells(ev, months, s, html_widths(months, s), k, months.len() as int)
            + "</tr>\n"@,
    decreases k - j,
{
    if j < k {
        lemma_html_rows_in_day_order(ev, months, s, j, k - 1);
        let a = html_rows(ev, months, s, k - 1);
        let p = html_rows(ev, months, s, j);
        let cells = html_row_cells(ev, months, s, html_widths(months, s), k, months.len() as int);
        let r = "<tr>\n"@ + cells + "</tr>\n"@;
        assert(html_rows(ev, months, s, k) == a + "<tr>\n"@ + cells + "</tr>\n"@);
        assert(a + "<tr>\n"@ + cells + "</tr>\n"@ =~= a + r);
        assert((a + r).take(p.len() as int) =~= a.take(p.len() as int));
    } else {
        assert(html_rows(ev, months, s, k).take(html_rows(ev, months, s, k).len() as int)
            =~= html_rows(ev, months, s, k));
    }
}

} // verus!
