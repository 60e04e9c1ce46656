//! The calendar as a markdown table: one column per month, one row per day of the month.
use vstd::prelude::*;

use crate::calendar::{entries_view, on_date};
use crate::cells::{
    entry_on, lemma_outside_entry_same_cells, lemma_same_dates_same_cells, lemma_summaries_step,
    month_name_of, same_cells, summaries_on,
};
use crate::date::{
    is_valid_date, iso_week, iso_week_of, weekday_from_monday, weekday_number, ymd, Date, Ymd,
};
use crate::i18n::{Strings, StringsView};
use crate::text::{
    byte_len, chars_of, decimal, join, lemma_byte_len_add, lemma_byte_len_ascii, pad_right,
    push_char, push_decimal, push_padded, push_repeat, push_str, repeat_char, sat_sub, spaces,
    str_len,
};

verus! {

/// A character as it stands in a markdown cell: `|` escaped, a line break as `<br>`.
pub open spec fn md_escape_char(c: char) -> Seq<char> {
    if c == '|' {
        seq!['\\', '|']
    } else if c == '\n' {
        seq!['<', 'b', 'r', '>']
    } else {
        seq![c]
    }
}

/// A text as it stands in a markdown cell.
pub open spec fn md_escape(s: Seq<char>) -> Seq<char>
    decreases s.len(),
{
    if s.len() == 0 {
        seq![]
    } else {
        md_escape(s.drop_last()) + md_escape_char(s.last())
    }
}

/// Appends `s` as it stands in a markdown cell.
fn push_md_escaped(out: &mut String, s: &str)
    ensures
        final(out)@ == old(out)@ + md_escape(s@),
{
    let cs = chars_of(s);
    let mut i: usize = 0;
    assert(s@.take(0) =~= Seq::<char>::empty());
    assert(old(out)@ + md_escape(s@.take(0)) =~= old(out)@);
    while i < cs.len()
        invariant
            cs@ == s@,
            i <= cs.len(),
            out@ == old(out)@ + md_escape(s@.take(i as int)),
        decreases cs.len() - i,
    {
        let c = cs[i];
        let ghost before = out@;
        if c == '|' {
            push_char(out, '\\');
            push_char(out, '|');
        } else if c == '\n' {
            push_char(out, '<');
            push_char(out, 'b');
            push_char(out, 'r');
            push_char(out, '>');
        } else {
            push_char(out, c);
        }
        assert(out@ =~= before + md_escape_char(c));
        assert(s@.take(i + 1).drop_last() =~= s@.take(i as int));
        assert(out@ =~= old(out)@ + md_escape(s@.take(i + 1)));
        i += 1;
    }
    assert(s@.take(cs.len() as int) =~= s@);
}

/// Escaping keeps a text within its cell: the escaped text has no line break, and each `|`
/// in it follows a `\`.
pub proof fn lemma_md_escape_stays_in_cell(s: Seq<char>)
    ensures
        forall|i: int| 0 <= i < md_escape(s).len() ==> #[trigger] md_escape(s)[i] != '\n',
        forall|i: int|
            0 <= i < md_escape(s).len() && #[trigger] md_escape(s)[i] == '|' ==> i > 0
                && md_escape(s)[i - 1] == '\\',
    decreases s.len(),
{
    if s.len() > 0 {
        lemma_md_escape_stays_in_cell(s.drop_last());
        let a = md_escape(s.drop_last());
        let b = md_escape_char(s.last());
        let r = md_escape(s);
        assert(r == a + b);
        assert forall|i: int| 0 <= i < r.len() implies #[trigger] r[i] != '\n' && (r[i] == '|'
            ==> i > 0 && r[i - 1] == '\\') by {
            if i < a.len() {
                assert(r[i] == a[i]);
                if i > 0 {
                    assert(r[i - 1] == a[i - 1]);
                }
            } else {
                assert(r[i] == b[i - a.len()]);
                if i > a.len() {
                    assert(r[i - 1] == b[i - 1 - a.len()]);
                }
            }
        }
    }
}

/// Escaped markdown cell text read back: `\|` as `|`, `<br>` as a line break, and any other
/// character as itself.
pub open spec fn md_unescape(t: Seq<char>) -> Seq<char>
    decreases t.len(),
{
    if t.len() == 0 {
        seq![]
    } else if t.len() >= 2 && t[0] == '\\' && t[1] == '|' {
        seq!['|'] + md_unescape(t.skip(2))
    } else if t.len() >= 4 && t[0] == '<' && t[1] == 'b' && t[2] == 'r' && t[3] == '>' {
        seq!['\n'] + md_unescape(t.skip(4))
    } else {
        seq![t[0]] + md_unescape(t.skip(1))
    }
}

/// Escaping a character followed by a text is escaping the character, then the text.
proof fn lemma_md_escape_front(c: char, s: Seq<char>)
    ensures
        md_escape(seq![c] + s) == md_escape_char(c) + md_escape(s),
    decreases s.len(),
{
    if s.len() == 0 {
        assert(seq![c] + s =~= seq![c]);
        let one = seq![c];
        assert(one.drop_last() =~= Seq::<char>::empty());
        assert(one.last() == c);
        assert(md_escape(one) == md_escape(one.drop_last()) + md_escape_char(one.last()));
        assert(md_escape(one) =~= md_escape_char(c));
        assert(md_escape_char(c) + md_escape(s) =~= md_escape_char(c));
    } else {
        lemma_md_escape_front(c, s.drop_last());
        assert((seq![c] + s).drop_last() =~= seq![c] + s.drop_last());
        assert((seq![c] + s).last() == s.last());
        assert(md_escape_char(c) + md_escape(s) =~= md_escape_char(c) + md_escape(s.drop_last())
            + md_escape_char(s.last()));
    }
}

/// Escaped text that starts with characters other than `\` and `<` comes from text that
/// starts with the same characters.
proof fn lemma_md_escape_starts(r: Seq<char>, w: Seq<char>)
    requires
        forall|i: int| 0 <= i < w.len() ==> #[trigger] w[i] != '\\' && w[i] != '<',
        w.len() <= md_escape(r).len(),
        md_escape(r).take(w.len() as int) == w,
    ensures
        w.len() <= r.len(),
        r.take(w.len() as int) == w,
    decreases w.len(),
{
    if w.len() > 0 {
        if r.len() == 0 {
            assert(md_escape(r).len() == 0);
        }
        let r0 = r[0];
        let r1 = r.skip(1);
        assert(r =~= seq![r0] + r1);
        lemma_md_escape_front(r0, r1);
        assert(md_escape(r)[0] == w[0]);
        assert(md_escape_char(r0) == seq![r0]);
        let x = md_escape(r1);
        assert(md_escape(r) == seq![r0] + x);
        assert(x.take(w.len() - 1) =~= w.skip(1)) by {
            assert forall|i: int| 0 <= i < w.len() - 1 implies x[i] == w.skip(1)[i] by {
                assert(md_escape(r).take(w.len() as int)[i + 1] == w[i + 1]);
            }
        }
        lemma_md_escape_starts(r1, w.skip(1));
        assert(r.take(w.len() as int) =~= seq![r0] + r1.take(w.len() - 1));
        assert(w =~= seq![w[0]] + w.skip(1));
    }
}

/// Escaping loses nothing: read back, the escaped text of a text without `<br>` in it is
/// that text.
pub proof fn lemma_md_escape_lossless(s: Seq<char>)
    requires
        forall|i: int|
            0 <= i && i + 4 <= s.len() ==> #[trigger] s.subrange(i, i + 4) != seq![
                '<',
                'b',
                'r',
                '>',
            ],
    ensures
        md_unescape(md_escape(s)) == s,
    decreases s.len(),
{
    if s.len() > 0 {
        let c = s[0];
        let r = s.skip(1);
        assert(s =~= seq![c] + r);
        assert forall|i: int| 0 <= i && i + 4 <= r.len() implies #[trigger] r.subrange(i, i + 4)
            != seq!['<', 'b', 'r', '>'] by {
            let k = i + 1;
            assert(s.subrange(k, k + 4) != seq!['<', 'b', 'r', '>']);
            assert(r.subrange(i, i + 4) =~= s.subrange(k, k + 4));
        }
        lemma_md_escape_lossless(r);
        lemma_md_escape_front(c, r);
        lemma_md_escape_stays_in_cell(r);
        let x = md_escape(r);
        let t = md_escape(s);
        assert(t == md_escape_char(c) + x);
        if c == '|' {
            assert(t.skip(2) =~= x);
        } else if c == '\n' {
            assert(t.skip(4) =~= x);
        } else {
            assert(t.skip(1) =~= x);
            if x.len() > 0 {
                assert(x[0] != '|');
            }
            if t.len() >= 4 && c == '<' && t[1] == 'b' && t[2] == 'r' && t[3] == '>' {
                let w = seq!['b', 'r', '>'];
                assert(x.take(3) =~= w);
                lemma_md_escape_starts(r, w);
                assert(s.subrange(0, 4) =~= seq!['<', 'b', 'r', '>']);
            }
        }
    }
}

/// A text with neither `|` nor a line break stands in a markdown cell as it is.
pub proof fn lemma_md_escape_plain(s: Seq<char>)
    requires
        forall|i: int| 0 <= i < s.len() ==> #[trigger] s[i] != '|' && s[i] != '\n',
    ensures
        md_escape(s) == s,
    decreases s.len(),
{
    if s.len() > 0 {
        lemma_md_escape_plain(s.drop_last());
        assert(s.drop_last() + seq![s.last()] =~= s);
    }
}

/// A text as it stands in a markdown cell: each `|` escaped as `\|`, each line break
/// written `<br>`, so that the text stays within its cell.
pub fn escape_markdown_cell(value: &str) -> (r: String)
    ensures
        r@ == md_escape(value@),
{
    let mut r = String::new();
    push_md_escaped(&mut r, value);
    assert(r@ =~= md_escape(value@));
    r
}

/// The name of a month; empty for a month after December.
pub fn month_name(s: &Strings, month: u32) -> (r: &'static str)
    requires
        month >= 1,
    ensures
        r@ == month_name_of(s@, month as int),
{
    if month <= 12 {
        s.months[(month - 1) as usize]
    } else {
        proof {
            reveal_strlit("");
        }
        ""
    }
}

/// The name of the weekday of a date.
pub fn weekday_name(s: &Strings, date: Date) -> (r: &'static str)
    ensures
        r@ == s@.weekdays[weekday_from_monday(date@) - 1],
{
    let n = weekday_number(date);
    s.weekdays[(n - 1) as usize]
}

/// The weekday of a date and, on a Monday, the label of its ISO week: `[Week2]`.
pub open spec fn md_day_prefix(s: StringsView, d: Ymd) -> (Seq<char>, Option<Seq<char>>) {
    let wd = weekday_from_monday(d);
    let name = s.weekdays[wd - 1];
    if wd == 1 {
        (
            name,
            Some(
                seq!['['] + s.week + decimal(iso_week_of(d) as nat) + seq![
                    ']',
                ],
            ),
        )
    } else {
        (name, None)
    }
}

fn day_prefix(s: &Strings, date: Date) -> (r: (String, Option<String>))
    ensures
        r.0@ == md_day_prefix(s@, date@).0,
        match (r.1, md_day_prefix(s@, date@).1) {
            (Some(a), Some(b)) => a@ == b,
            (None, None) => true,
            _ => false,
        },
{
    let mut weekday = String::new();
    push_str(&mut weekday, weekday_name(s, date));
    if weekday_number(date) == 1 {
        let mut label = String::new();
        push_char(&mut label, '[');
        push_str(&mut label, s.week);
        push_decimal(&mut label, iso_week(date) as u64);
        push_char(&mut label, ']');
        assert(label@ =~= md_day_prefix(s@, date@).1.unwrap());
        (weekday, Some(label))
    } else {
        (weekday, None)
    }
}

/// `value` centred in `width` bytes: the spaces split in two, the extra one on the right.
pub open spec fn pad_header_spec(value: Seq<char>, width: int) -> Seq<char> {
    if width <= byte_len(value) {
        value
    } else {
        let padding = width - byte_len(value);
        spaces(padding / 2) + value + spaces(padding - padding / 2)
    }
}

/// `value` centred in `width` bytes, as a month stands in the header of its column.
pub fn pad_header(value: &str, width: usize) -> (r: String)
    ensures
        r@ == pad_header_spec(value@, width as int),
{
    let mut r = String::new();
    let len = str_len(value);
    if width <= len {
        push_str(&mut r, value);
        return r;
    }
    let padding = width - len;
    let left = padding / 2;
    let right = padding - left;
    push_repeat(&mut r, ' ', left);
    push_str(&mut r, value);
    push_repeat(&mut r, ' ', right);
    assert(repeat_char(' ', left as int) =~= spaces(left as int));
    assert(repeat_char(' ', right as int) =~= spaces(right as int));
    r
}

/// The text of the entries on `d` in a markdown cell: their escaped summaries, one per line.
pub open spec fn md_cell_value(ev: Seq<(Ymd, Seq<char>)>, d: Ymd) -> Seq<char> {
    join(summaries_on(ev, d).map_values(|t: Seq<char>| md_escape(t)), "<br>"@)
}

/// Whether any entry lies on the date, and the text of those entries in a cell.
fn cell_value(events: &[(Date, String)], year: i32, month: u32, day: u32) -> (r: (bool, String))
    ensures
        r.0 == (summaries_on(entries_view(events@), ymd(year as int, month as int, day as int)).len()
            > 0),
        r.1@ == md_cell_value(entries_view(events@), ymd(year as int, month as int, day as int)),
{
    let ghost ev = entries_view(events@);
    let ghost d = ymd(year as int, month as int, day as int);
    let ghost esc = |t: Seq<char>| md_escape(t);
    let mut found = false;
    let mut value = String::new();
    let mut i: usize = 0;
    assert(ev.take(0).filter(crate::calendar::on_date(d)) =~= Seq::<(Ymd, Seq<char>)>::empty()) by {
        reveal_with_fuel(Seq::filter, 1);
    }
    assert(summaries_on(ev.take(0), d) =~= Seq::<Seq<char>>::empty());
    while i < events.len()
        invariant
            ev == entries_view(events@),
            d == ymd(year as int, month as int, day as int),
            esc == (|t: Seq<char>| md_escape(t)),
            i <= events.len(),
            found == (summaries_on(ev.take(i as int), d).len() > 0),
            value@ == join(summaries_on(ev.take(i as int), d).map_values(esc), "<br>"@),
        decreases events.len() - i,
    {
        proof {
            lemma_summaries_step(ev, i as int, d);
        }
        let ghost prev = summaries_on(ev.take(i as int), d);
        if entry_on(&events[i], year, month, day) {
            let ghost before = value@;
            if found {
                push_str(&mut value, "<br>");
            }
            push_md_escaped(&mut value, events[i].1.as_str());
            proof {
                let next = prev.push(ev[i as int].1);
                assert(next.map_values(esc) =~= prev.map_values(esc).push(md_escape(ev[i as int].1)));
                if prev.len() == 0 {
                    assert(before =~= Seq::<char>::empty());
                    assert(next.map_values(esc).len() == 1);
                } else {
                    assert(next.map_values(esc).drop_last() =~= prev.map_values(esc));
                }
            }
            found = true;
        }
        i += 1;
    }
    assert(ev.take(events.len() as int) =~= ev);
    (found, value)
}

/// The bytes a day needs in its month's column: the weekday, the week label on a Monday, and
/// the entries after a space.
pub open spec fn md_day_need(ev: Seq<(Ymd, Seq<char>)>, s: StringsView, d: Ymd) -> int {
    let (wd, label) = md_day_prefix(s, d);
    let prefix_len = byte_len(wd) + match label {
        Some(l) => byte_len(l),
        None => 0,
    };
    if summaries_on(ev, d).len() > 0 {
        prefix_len + byte_len(md_cell_value(ev, d)) + 1
    } else {
        prefix_len
    }
}

/// The width of a month's column after its first `k` days: the bytes of its name, or what a
/// day needs where that is more.
pub open spec fn md_width_through(
    ev: Seq<(Ymd, Seq<char>)>,
    s: StringsView,
    year: int,
    month: int,
    k: int,
) -> int
    decreases k,
{
    if k <= 0 {
        byte_len(month_name_of(s, month))
    } else {
        let w = md_width_through(ev, s, year, month, k - 1);
        if is_valid_date(ymd(year, month, k)) {
            let need = md_day_need(ev, s, ymd(year, month, k));
            if need > w {
                need
            } else {
                w
            }
        } else {
            w
        }
    }
}

/// The width in bytes of a month's column.
pub open spec fn md_month_width(ev: Seq<(Ymd, Seq<char>)>, s: StringsView, year: int, month: int) -> int {
    md_width_through(ev, s, year, month, 31)
}

/// The width after the first `k` days covers the name and each of those days.
proof fn lemma_width_through_covers(
    ev: Seq<(Ymd, Seq<char>)>,
    s: StringsView,
    year: int,
    month: int,
    k: int,
)
    ensures
        byte_len(month_name_of(s, month)) <= md_width_through(ev, s, year, month, k),
        forall|day: int|
            1 <= day <= k && is_valid_date(ymd(year, month, day)) ==> #[trigger] md_day_need(
                ev,
                s,
                ymd(year, month, day),
            ) <= md_width_through(ev, s, year, month, k),
    decreases k,
{
    if k > 0 {
        lemma_width_through_covers(ev, s, year, month, k - 1);
    }
}

/// A month's column is as wide as its name and as what each of its days needs.
pub proof fn lemma_column_fits(ev: Seq<(Ymd, Seq<char>)>, s: StringsView, year: int, month: int)
    ensures
        byte_len(month_name_of(s, month)) <= md_month_width(ev, s, year, month),
        forall|day: int|
            1 <= day <= 31 && is_valid_date(ymd(year, month, day)) ==> #[trigger] md_day_need(
                ev,
                s,
                ymd(year, month, day),
            ) <= md_month_width(ev, s, year, month),
{
    lemma_width_through_covers(ev, s, year, month, 31);
}

fn month_width(events: &[(Date, String)], strings: &Strings, year: i32, month: u32) -> (w: usize)
    requires
        month >= 1,
    ensures
        w == md_month_width(entries_view(events@), strings@, year as int, month as int),
{
    let ghost ev = entries_view(events@);
    let mut width = str_len(month_name(strings, month));
    let mut day: u32 = 1;
    while day <= 31
        invariant
            ev == entries_view(events@),
            month >= 1,
            1 <= day <= 32,
            width == md_width_through(ev, strings@, year as int, month as int, day - 1),
        decreases 32 - day,
    {
        if let Some(cell_day) = Date::new(year, month, day) {
            let (weekday, week_label) = day_prefix(strings, cell_day);
            let label_len = match &week_label {
                Some(l) => str_len(l.as_str()),
                None => 0,
            };
            let (has, value) = cell_value(events, year, month, day);
            let ghost d = ymd(year as int, month as int, day as int);
            assert(cell_day@ == d);
            let ghost prefix = md_day_prefix(strings@, d);
            let ghost prefix_len = byte_len(prefix.0) + match prefix.1 {
                Some(l) => byte_len(l),
                None => 0,
            };
            assert(label_len == prefix_len - byte_len(prefix.0));
            let need = if has {
                let mut head = String::new();
                push_str(&mut head, weekday.as_str());
                push_char(&mut head, ' ');
                push_str(&mut head, value.as_str());
                proof {
                    lemma_byte_len_ascii(' ');
                    lemma_byte_len_add(weekday@, seq![' ']);
                    lemma_byte_len_add(weekday@ + seq![' '], value@);
                    assert(head@ =~= weekday@ + seq![' '] + value@);
                }
                str_len(head.as_str()) + label_len
            } else {
                str_len(weekday.as_str()) + label_len
            };
            assert(need == md_day_need(ev, strings@, d));
            if need > width {
                width = need;
            }
        }
        day += 1;
    }
    width
}

pub open spec fn widths_view(v: Seq<usize>) -> Seq<int> {
    v.map_values(|w: usize| w as int)
}

/// The widths of the month columns.
pub open spec fn md_widths(ev: Seq<(Ymd, Seq<char>)>, months: Seq<(i32, u32)>, s: StringsView) -> Seq<int> {
    months.map_values(|ym: (i32, u32)| md_month_width(ev, s, ym.0 as int, ym.1 as int))
}

/// The headers of the first `k` month columns.
pub open spec fn md_header_cells(months: Seq<(i32, u32)>, s: StringsView, widths: Seq<int>, k: int) -> Seq<char>
    decreases k,
{
    if k <= 0 {
        seq![]
    } else {
        md_header_cells(months, s, widths, k - 1) + seq![' '] + pad_header_spec(
            month_name_of(s, months[k - 1].1 as int),
            widths[k - 1],
        ) + seq![' ', '|']
    }
}

/// The header line: an empty corner, then each month's name centred in its column.
pub open spec fn md_header(months: Seq<(i32, u32)>, s: StringsView, widths: Seq<int>) -> Seq<char> {
    seq!['|', ' '] + pad_header_spec(seq![], 2) + seq![' ', '|'] + md_header_cells(
        months,
        s,
        widths,
        months.len() as int,
    ) + seq!['\n']
}

/// The rules under the first `k` month headers.
pub open spec fn md_rule_cells(widths: Seq<int>, k: int) -> Seq<char>
    decreases k,
{
    if k <= 0 {
        seq![]
    } else {
        md_rule_cells(widths, k - 1) + seq![' '] + repeat_char('-', widths[k - 1]) + seq![' ', '|']
    }
}

/// The line that separates the header from the days: dashes across each column.
pub open spec fn md_rule(widths: Seq<int>) -> Seq<char> {
    seq!['|', ' '] + repeat_char('-', 2) + seq![' ', '|'] + md_rule_cells(widths, widths.len() as int)
        + seq!['\n']
}

/// What the cell of a day shows: the weekday, the entries after a space, and on a Monday the
/// week label, pushed to the right edge of the column where there is room; nothing for a day
/// the month does not have.
pub open spec fn md_cell(
    ev: Seq<(Ymd, Seq<char>)>,
    s: StringsView,
    year: int,
    month: int,
    day: int,
    width: int,
) -> Seq<char> {
    let d = ymd(year, month, day);
    let (wd, label) = if is_valid_date(d) {
        md_day_prefix(s, d)
    } else {
        (seq![], None)
    };
    if summaries_on(ev, d).len() > 0 {
        let value = md_cell_value(ev, d);
        match label {
            Some(l) => {
                let padding = sat_sub(width, byte_len(wd) + byte_len(value) + byte_len(l) + 1);
                wd + seq![' '] + value + spaces(padding) + l
            },
            None => wd + seq![' '] + value,
        }
    } else {
        match label {
            Some(l) => wd + spaces(sat_sub(width, byte_len(wd) + byte_len(l))) + l,
            None => wd,
        }
    }
}

fn cell_text(
    events: &[(Date, String)],
    strings: &Strings,
    year: i32,
    month: u32,
    day: u32,
    width: usize,
) -> (r: String)
    ensures
        r@ == md_cell(
            entries_view(events@),
            strings@,
            year as int,
            month as int,
            day as int,
            width as int,
        ),
{
    let (weekday, week_label) = match Date::new(year, month, day) {
        Some(d) => day_prefix(strings, d),
        None => (String::new(), None),
    };
    let (has, value) = cell_value(events, year, month, day);
    let ghost d = ymd(year as int, month as int, day as int);
    let ghost prefix: (Seq<char>, Option<Seq<char>>) = if is_valid_date(d) {
        md_day_prefix(strings@, d)
    } else {
        (seq![], None)
    };
    assert(weekday@ == prefix.0);
    assert(match (week_label, prefix.1) {
        (Some(a), Some(b)) => a@ == b,
        (None, None) => true,
        _ => false,
    });
    if has {
        let mut content = String::new();
        push_str(&mut content, weekday.as_str());
        push_char(&mut content, ' ');
        push_str(&mut content, value.as_str());
        match week_label {
            Some(label) => {
                proof {
                    lemma_byte_len_ascii(' ');
                    lemma_byte_len_add(weekday@, seq![' ']);
                    lemma_byte_len_add(weekday@ + seq![' '], value@);
                    assert(content@ =~= weekday@ + seq![' '] + value@);
                }
                let head_len = str_len(content.as_str());
                let label_len = str_len(label.as_str());
                let padding = width.saturating_sub(head_len + label_len);
                push_repeat(&mut content, ' ', padding);
                push_str(&mut content, label.as_str());
                assert(repeat_char(' ', padding as int) =~= spaces(padding as int));
                assert(content@ =~= weekday@ + seq![' '] + value@ + spaces(padding as int) + label@);
                content
            },
            None => {
                assert(content@ =~= weekday@ + seq![' '] + value@);
                content
            },
        }
    } else {
        match week_label {
            Some(label) => {
                let padding = width.saturating_sub(
                    str_len(weekday.as_str()) + str_len(label.as_str()),
                );
                let ghost wd = weekday@;
                let mut content = weekday;
                push_repeat(&mut content, ' ', padding);
                push_str(&mut content, label.as_str());
                assert(repeat_char(' ', padding as int) =~= spaces(padding as int));
                assert(content@ =~= wd + spaces(padding as int) + label@);
                content
            },
            None => weekday,
        }
    }
}

/// The cells of the first `k` months on day `day`.
pub open spec fn md_row_cells(
    ev: Seq<(Ymd, Seq<char>)>,
    months: Seq<(i32, u32)>,
    s: StringsView,
    widths: Seq<int>,
    day: int,
    k: int,
) -> Seq<char>
    decreases k,
{
    if k <= 0 {
        seq![]
    } else {
        let (y, m) = months[k - 1];
        md_row_cells(ev, months, s, widths, day, k - 1) + seq![' '] + pad_right(
            md_cell(ev, s, y as int, m as int, day, widths[k - 1]),
            widths[k - 1],
        ) + seq![' ', '|']
    }
}

/// The line of day `day` of the month.
pub open spec fn md_row(
    ev: Seq<(Ymd, Seq<char>)>,
    months: Seq<(i32, u32)>,
    s: StringsView,
    widths: Seq<int>,
    day: int,
) -> Seq<char> {
    seq!['|', ' '] + pad_right(decimal(day as nat), 2) + seq![' ', '|'] + md_row_cells(
        ev,
        months,
        s,
        widths,
        day,
        months.len() as int,
    ) + seq!['\n']
}

/// The lines of days 1 to `k`.
pub open spec fn md_rows(
    ev: Seq<(Ymd, Seq<char>)>,
    months: Seq<(i32, u32)>,
    s: StringsView,
    widths: Seq<int>,
    k: int,
) -> Seq<char>
    decreases k,
{
    if k <= 0 {
        seq![]
    } else {
        md_rows(ev, months, s, widths, k - 1) + md_row(ev, months, s, widths, k)
    }
}

/// The whole table: the header, the rule under it, and the lines of days 1 to 31.
pub open spec fn markdown_table(
    ev: Seq<(Ymd, Seq<char>)>,
    months: Seq<(i32, u32)>,
    s: StringsView,
) -> Seq<char> {
    let widths = md_widths(ev, months, s);
    md_header(months, s, widths) + md_rule(widths) + md_rows(ev, months, s, widths, 31)
}

/// The widths of the month columns.
fn month_widths(events: &[(Date, String)], months: &[(i32, u32)], strings: &Strings) -> (r: Vec<usize>)
    requires
        forall|i: int| 0 <= i < months.len() ==> #[trigger] months[i].1 >= 1,
    ensures
        widths_view(r@) == md_widths(entries_view(events@), months@, strings@),
        r.len() == months.len(),
{
    let mut widths: Vec<usize> = Vec::new();
    let mut i: usize = 0;
    while i < months.len()
        invariant
            i <= months.len(),
            widths.len() == i,
            forall|j: int| 0 <= j < months.len() ==> #[trigger] months[j].1 >= 1,
            widths_view(widths@) == md_widths(entries_view(events@), months@, strings@).take(
                i as int,
            ),
        decreases months.len() - i,
    {
        let (year, month) = months[i];
        let w = month_width(events, strings, year, month);
        assert(md_widths(entries_view(events@), months@, strings@)[i as int] == md_month_width(
            entries_view(events@),
            strings@,
            year as int,
            month as int,
        ));
        widths.push(w);
        assert(widths_view(widths@) =~= md_widths(entries_view(events@), months@, strings@).take(
            i + 1,
        ));
        i += 1;
    }
    assert(md_widths(entries_view(events@), months@, strings@).take(months.len() as int)
        =~= md_widths(entries_view(events@), months@, strings@));
    widths
}

fn push_header(out: &mut String, months: &[(i32, u32)], strings: &Strings, widths: &Vec<usize>)
    requires
        widths.len() == months.len(),
        forall|i: int| 0 <= i < months.len() ==> #[trigger] months[i].1 >= 1,
    ensures
        final(out)@ == old(out)@ + md_header(months@, strings@, widths_view(widths@)),
{
    let ghost wv = widths_view(widths@);
    push_char(out, '|');
    push_char(out, ' ');
    proof {
        reveal_strlit("");
    }
    let corner = pad_header("", 2);
    assert(""@ =~= Seq::<char>::empty());
    push_str(out, corner.as_str());
    push_char(out, ' ');
    push_char(out, '|');
    let ghost start = out@;
    assert(start =~= old(out)@ + seq!['|', ' '] + pad_header_spec(seq![], 2) + seq![' ', '|']);
    let mut i: usize = 0;
    while i < months.len()
        invariant
            i <= months.len(),
            widths.len() == months.len(),
            wv == widths_view(widths@),
            forall|j: int| 0 <= j < months.len() ==> #[trigger] months[j].1 >= 1,
            out@ == start + md_header_cells(months@, strings@, wv, i as int),
        decreases months.len() - i,
    {
        let (_year, month) = months[i];
        push_char(out, ' ');
        let cell = pad_header(month_name(strings, month), widths[i]);
        push_str(out, cell.as_str());
        push_char(out, ' ');
        push_char(out, '|');
        assert(out@ =~= start + md_header_cells(months@, strings@, wv, i + 1));
        i += 1;
    }
    push_char(out, '\n');
    assert(out@ =~= old(out)@ + md_header(months@, strings@, wv));
}

fn push_rule(out: &mut String, widths: &Vec<usize>)
    ensures
        final(out)@ == old(out)@ + md_rule(widths_view(widths@)),
{
    let ghost wv = widths_view(widths@);
    push_char(out, '|');
    push_char(out, ' ');
    push_repeat(out, '-', 2);
    push_char(out, ' ');
    push_char(out, '|');
    let ghost start = out@;
    let mut i: usize = 0;
    while i < widths.len()
        invariant
            i <= widths.len(),
            wv == widths_view(widths@),
            out@ == start + md_rule_cells(wv, i as int),
        decreases widths.len() - i,
    {
        push_char(out, ' ');
        push_repeat(out, '-', widths[i]);
        push_char(out, ' ');
        push_char(out, '|');
        assert(out@ =~= start + md_rule_cells(wv, i + 1));
        i += 1;
    }
    push_char(out, '\n');
    assert(out@ =~= old(out)@ + md_rule(wv));
}

fn push_row(
    out: &mut String,
    events: &[(Date, String)],
    months: &[(i32, u32)],
    strings: &Strings,
    widths: &Vec<usize>,
    day: u32,
)
    requires
        widths.len() == months.len(),
    ensures
        final(out)@ == old(out)@ + md_row(
            entries_view(events@),
            months@,
            strings@,
            widths_view(widths@),
            day as int,
        ),
{
    let ghost wv = widths_view(widths@);
    let ghost ev = entries_view(events@);
    push_char(out, '|');
    push_char(out, ' ');
    let mut number = String::new();
    push_decimal(&mut number, day as u64);
    push_padded(out, number.as_str(), 2);
    push_char(out, ' ');
    push_char(out, '|');
    let ghost start = out@;
    let mut i: usize = 0;
    while i < months.len()
        invariant
            i <= months.len(),
            widths.len() == months.len(),
            wv == widths_view(widths@),
            ev == entries_view(events@),
            out@ == start + md_row_cells(ev, months@, strings@, wv, day as int, i as int),
        decreases months.len() - i,
    {
        let (year, month) = months[i];
        push_char(out, ' ');
        let content = cell_text(events, strings, year, month, day, widths[i]);
        push_padded(out, content.as_str(), widths[i]);
        push_char(out, ' ');
        push_char(out, '|');
        assert(out@ =~= start + md_row_cells(ev, months@, strings@, wv, day as int, i + 1));
        i += 1;
    }
    push_char(out, '\n');
    assert(out@ =~= old(out)@ + md_row(ev, months@, strings@, wv, day as int));
}

/// Renders calendar entries as a markdown table: a column for each (year, month) of `months`,
/// a line for each day from 1 to 31, and in each cell the weekday, the summaries of the
/// entries of that date, and on Mondays the ISO week.
pub fn calendar_markdown(events: &[(Date, String)], months: &[(i32, u32)], strings: &Strings) -> (r: String)
    requires
        forall|i: int| 0 <= i < months.len() ==> #[trigger] months[i].1 >= 1,
    ensures
        r@ == markdown_table(entries_view(events@), months@, strings@),
{
    let ghost ev = entries_view(events@);
    let widths = month_widths(events, months, strings);
    let ghost wv = widths_view(widths@);
    let mut markdown = String::new();
    push_header(&mut markdown, months, strings, &widths);
    push_rule(&mut markdown, &widths);
    let ghost top = markdown@;
    let mut day: u32 = 1;
    while day <= 31
        invariant
            1 <= day <= 32,
            widths.len() == months.len(),
            wv == widths_view(widths@),
            ev == entries_view(events@),
            markdown@ == top + md_rows(ev, months@, strings@, wv, day - 1),
        decreases 32 - day,
    {
        push_row(&mut markdown, events, months, strings, &widths, day);
        assert(markdown@ =~= top + md_rows(ev, months@, strings@, wv, day as int));
        day += 1;
    }
    markdown
}


/// Under the same cells, a month's column has the same width after its first `k` days.
proof fn lemma_md_width_same(
    a: Seq<(Ymd, Seq<char>)>,
    b: Seq<(Ymd, Seq<char>)>,
    months: Seq<(i32, u32)>,
    s: StringsView,
    j: int,
    k: int,
)
    requires
        same_cells(a, b, months),
        0 <= j < months.len(),
    ensures
        md_width_through(a, s, months[j].0 as int, months[j].1 as int, k) == md_width_through(
            b,
            s,
            months[j].0 as int,
            months[j].1 as int,
            k,
        ),
    decreases k,
{
    if k > 0 {
        lemma_md_width_same(a, b, months, s, j, k - 1);
        let d = ymd(months[j].0 as int, months[j].1 as int, k);
        assert(summaries_on(a, d) == summaries_on(b, d));
        assert(md_cell_value(a, d) == md_cell_value(b, d));
        assert(md_day_need(a, s, d) == md_day_need(b, s, d));
    }
}

/// Under the same cells, the first `k` cells of a day's line are the same.
proof fn lemma_md_row_cells_same(
    a: Seq<(Ymd, Seq<char>)>,
    b: Seq<(Ymd, Seq<char>)>,
    months: Seq<(i32, u32)>,
    s: StringsView,
    widths: Seq<int>,
    day: int,
    k: int,
)
    requires
        same_cells(a, b, months),
        k <= months.len(),
    ensures
        md_row_cells(a, months, s, widths, day, k) == md_row_cells(b, months, s, widths, day, k),
    decreases k,
{
    if k > 0 {
        lemma_md_row_cells_same(a, b, months, s, widths, day, k - 1);
        let d = ymd(months[k - 1].0 as int, months[k - 1].1 as int, day);
        assert(summaries_on(a, d) == summaries_on(b, d));
        assert(md_cell_value(a, d) == md_cell_value(b, d));
    }
}

/// Under the same cells, the lines of days 1 to `k` are the same.
proof fn lemma_md_rows_same(
    a: Seq<(Ymd, Seq<char>)>,
    b: Seq<(Ymd, Seq<char>)>,
    months: Seq<(i32, u32)>,
    s: StringsView,
    widths: Seq<int>,
    k: int,
)
    requires
        same_cells(a, b, months),
    ensures
        md_rows(a, months, s, widths, k) == md_rows(b, months, s, widths, k),
    decreases k,
{
    if k > 0 {
        lemma_md_rows_same(a, b, months, s, widths, k - 1);
        lemma_md_row_cells_same(a, b, months, s, widths, k, months.len() as int);
    }
}

/// The table depends on the entries only through the summaries, in order, on each day of
/// the listed months: entries that give the same cells give the same table.
pub proof fn lemma_markdown_same_cells(
    a: Seq<(Ymd, Seq<char>)>,
    b: Seq<(Ymd, Seq<char>)>,
    months: Seq<(i32, u32)>,
    s: StringsView,
)
    requires
        same_cells(a, b, months),
    ensures
        markdown_table(a, months, s) == markdown_table(b, months, s),
{
    assert forall|j: int| 0 <= j < months.len() implies #[trigger] md_widths(a, months, s)[j]
        == md_widths(b, months, s)[j] by {
        lemma_md_width_same(a, b, months, s, j, 31);
    }
    assert(md_widths(a, months, s) =~= md_widths(b, months, s));
    lemma_md_rows_same(a, b, months, s, md_widths(a, months, s), 31);
}

/// An entry on a date outside the listed months changes neither a cell nor a column width:
/// the table is the same without it.
pub proof fn lemma_markdown_ignores_other_months(
    a: Seq<(Ymd, Seq<char>)>,
    e: (Ymd, Seq<char>),
    b: Seq<(Ymd, Seq<char>)>,
    months: Seq<(i32, u32)>,
    s: StringsView,
)
    requires
        forall|j: int|
            0 <= j < months.len() ==> !((#[trigger] months[j]).0 as int == e.0.year
                && months[j].1 as int == e.0.month),
    ensures
        markdown_table(a + seq![e] + b, months, s) == markdown_table(a + b, months, s),
{
    lemma_outside_entry_same_cells(a, e, b, months);
    lemma_markdown_same_cells(a + seq![e] + b, a + b, months, s);
}

/// Reordering the entries while each date keeps its entries in the same order gives the same
/// table.
pub proof fn lemma_markdown_keeps_per_date_order(
    a: Seq<(Ymd, Seq<char>)>,
    b: Seq<(Ymd, Seq<char>)>,
    months: Seq<(i32, u32)>,
    s: StringsView,
)
    requires
        forall|d: Ymd| #[trigger] a.filter(on_date(d)) == b.filter(on_date(d)),
    ensures
        markdown_table(a, months, s) == markdown_table(b, months, s),
{
    lemma_same_dates_same_cells(a, b, months);
    lemma_markdown_same_cells(a, b, months, s);
}


/// The first `k` header cells depend only on the first `k` months and widths.
proof fn lemma_md_header_prefix(
    a: Seq<(i32, u32)>,
    b: Seq<(i32, u32)>,
    s: StringsView,
    wa: Seq<int>,
    wb: Seq<int>,
    k: int,
)
    requires
        wa.len() == a.len(),
        0 <= k <= a.len(),
    ensures
        md_header_cells(a + b, s, wa + wb, k) == md_header_cells(a, s, wa, k),
    decreases k,
{
    if k > 0 {
        lemma_md_header_prefix(a, b, s, wa, wb, k - 1);
        assert((a + b)[k - 1] == a[k - 1]);
        assert((wa + wb)[k - 1] == wa[k - 1]);
    }
}

/// The header cells of `a` then `b`, through `j` months of `b`.
proof fn lemma_md_header_tail(
    a: Seq<(i32, u32)>,
    b: Seq<(i32, u32)>,
    s: StringsView,
    wa: Seq<int>,
    wb: Seq<int>,
    j: int,
)
    requires
        wa.len() == a.len(),
        wb.len() == b.len(),
        0 <= j <= b.len(),
    ensures
        md_header_cells(a + b, s, wa + wb, a.len() + j) == md_header_cells(a, s, wa, a.len() as int)
            + md_header_cells(b, s, wb, j),
    decreases j,
{
    if j == 0 {
        lemma_md_header_prefix(a, b, s, wa, wb, a.len() as int);
        assert(md_header_cells(a, s, wa, a.len() as int) + md_header_cells(b, s, wb, 0)
            =~= md_header_cells(a, s, wa, a.len() as int));
    } else {
        lemma_md_header_tail(a, b, s, wa, wb, j - 1);
        assert((a + b)[a.len() + j - 1] == b[j - 1]);
        assert((wa + wb)[a.len() + j - 1] == wb[j - 1]);
        let c = seq![' '] + pad_header_spec(month_name_of(s, b[j - 1].1 as int), wb[j - 1]) + seq![
            ' ',
            '|',
        ];
        assert(md_header_cells(a, s, wa, a.len() as int) + md_header_cells(b, s, wb, j - 1) + c
            =~= md_header_cells(a, s, wa, a.len() as int) + (md_header_cells(b, s, wb, j - 1)
            + c));
    }
}

/// The first `k` cells of a day's line depend only on the first `k` months and widths.
proof fn lemma_md_row_prefix(
    ev: Seq<(Ymd, Seq<char>)>,
    a: Seq<(i32, u32)>,
    b: Seq<(i32, u32)>,
    s: StringsView,
    wa: Seq<int>,
    wb: Seq<int>,
    day: int,
    k: int,
)
    requires
        wa.len() == a.len(),
        0 <= k <= a.len(),
    ensures
        md_row_cells(ev, a + b, s, wa + wb, day, k) == md_row_cells(ev, a, s, wa, day, k),
    decreases k,
{
    if k > 0 {
        lemma_md_row_prefix(ev, a, b, s, wa, wb, day, k - 1);
        assert((a + b)[k - 1] == a[k - 1]);
        assert((wa + wb)[k - 1] == wa[k - 1]);
    }
}

/// The cells of a day's line for `a` then `b`, through `j` months of `b`.
proof fn lemma_md_row_tail(
    ev: Seq<(Ymd, Seq<char>)>,
    a: Seq<(i32, u32)>,
    b: Seq<(i32, u32)>,
    s: StringsView,
    wa: Seq<int>,
    wb: Seq<int>,
    day: int,
    j: int,
)
    requires
        wa.len() == a.len(),
        wb.len() == b.len(),
        0 <= j <= b.len(),
    ensures
        md_row_cells(ev, a + b, s, wa + wb, day, a.len() + j) == md_row_cells(
            ev,
            a,
            s,
            wa,
            day,
            a.len() as int,
        ) + md_row_cells(ev, b, s, wb, day, j),
    decreases j,
{
    if j == 0 {
        lemma_md_row_prefix(ev, a, b, s, wa, wb, day, a.len() as int);
        assert(md_row_cells(ev, a, s, wa, day, a.len() as int) + md_row_cells(ev, b, s, wb, day, 0)
            =~= md_row_cells(ev, a, s, wa, day, a.len() as int));
    } else {
        lemma_md_row_tail(ev, a, b, s, wa, wb, day, j - 1);
        assert((a + b)[a.len() + j - 1] == b[j - 1]);
        assert((wa + wb)[a.len() + j - 1] == wb[j - 1]);
        let (y, m) = b[j - 1];
        let c = seq![' '] + pad_right(md_cell(ev, s, y as int, m as int, day, wb[j - 1]), wb[j - 1])
            + seq![' ', '|'];
        let pa = md_row_cells(ev, a, s, wa, day, a.len() as int);
        let pb = md_row_cells(ev, b, s, wb, day, j - 1);
        assert(pa + pb + c =~= pa + (pb + c));
    }
}

/// Each column of the table belongs to one month, in the order the months are listed: the
/// widths, the header line and every day's line of the months `a` followed by the months `b`
/// are those of `a` followed by those of `b`; and for a single month the header cell names
/// that month, centred in its width, and the day's cell shows that month's day.
pub proof fn lemma_md_columns(
    ev: Seq<(Ymd, Seq<char>)>,
    a: Seq<(i32, u32)>,
    b: Seq<(i32, u32)>,
    s: StringsView,
    wa: Seq<int>,
    wb: Seq<int>,
    day: int,
)
    requires
        wa.len() == a.len(),
        wb.len() == b.len(),
    ensures
        md_widths(ev, a + b, s) == md_widths(ev, a, s) + md_widths(ev, b, s),
        md_header_cells(a + b, s, wa + wb, (a + b).len() as int) == md_header_cells(
            a,
            s,
            wa,
            a.len() as int,
        ) + md_header_cells(b, s, wb, b.len() as int),
        md_row_cells(ev, a + b, s, wa + wb, day, (a + b).len() as int) == md_row_cells(
            ev,
            a,
            s,
            wa,
            day,
            a.len() as int,
        ) + md_row_cells(ev, b, s, wb, day, b.len() as int),
        forall|m: (i32, u32), w: int|
            #[trigger] md_header_cells(seq![m], s, seq![w], 1) == seq![' '] + pad_header_spec(
                month_name_of(s, m.1 as int),
                w,
            ) + seq![' ', '|'],
        forall|m: (i32, u32), w: int|
            #[trigger] md_row_cells(ev, seq![m], s, seq![w], day, 1) == seq![' '] + pad_right(
                md_cell(ev, s, m.0 as int, m.1 as int, day, w),
                w,
            ) + seq![' ', '|'],
{
    assert(md_widths(ev, a + b, s) =~= md_widths(ev, a, s) + md_widths(ev, b, s));
    lemma_md_header_tail(a, b, s, wa, wb, b.len() as int);
    lemma_md_row_tail(ev, a, b, s, wa, wb, day, b.len() as int);
    assert forall|m: (i32, u32), w: int|
        #[trigger] md_header_cells(seq![m], s, seq![w], 1) == seq![' '] + pad_header_spec(
            month_name_of(s, m.1 as int),
            w,
        ) + seq![' ', '|'] by {
        reveal_with_fuel(md_header_cells, 2);
        assert(seq![m][0] == m);
        assert(seq![w][0] == w);
        assert(Seq::<char>::empty() + seq![' '] =~= seq![' ']);
    }
    assert forall|m: (i32, u32), w: int|
        #[trigger] md_row_cells(ev, seq![m], s, seq![w], day, 1) == seq![' '] + pad_right(
            md_cell(ev, s, m.0 as int, m.1 as int, day, w),
            w,
        ) + seq![' ', '|'] by {
        reveal_with_fuel(md_row_cells, 2);
        assert(seq![m][0] == m);
        assert(seq![w][0] == w);
        assert(Seq::<char>::empty() + seq![' '] =~= seq![' ']);
    }
}

/// A day with entries shows, whatever its weekday, its weekday name, a space and then its
/// entries, at the start of its cell and of the cell padded to its column.
pub proof fn lemma_md_cell_shows_entries(
    ev: Seq<(Ymd, Seq<char>)>,
    s: StringsView,
    year: int,
    month: int,
    day: int,
    width: int,
)
    requires
        is_valid_date(ymd(year, month, day)),
        summaries_on(ev, ymd(year, month, day)).len() > 0,
    ensures
        ({
            let d = ymd(year, month, day);
            let head = md_day_prefix(s, d).0 + seq![' '] + md_cell_value(ev, d);
            let cell = md_cell(ev, s, year, month, day, width);
            &&& head.len() <= cell.len()
            &&& cell.take(head.len() as int) == head
            &&& pad_right(cell, width).take(head.len() as int) == head
        }),
{
    let d = ymd(year, month, day);
    let head = md_day_prefix(s, d).0 + seq![' '] + md_cell_value(ev, d);
    let cell = md_cell(ev, s, year, month, day, width);
    assert(cell.take(head.len() as int) =~= head);
    assert(pad_right(cell, width).take(head.len() as int) =~= head);
}


/// The lines of the days come in the order of the days: the lines of days 1 to `j` begin
/// the lines of days 1 to `k` for `j <= k`, the line of day `k` follows those of the days
/// before it, and each line begins with its day's number and ends the line.
pub proof fn lemma_md_rows_in_day_order(
    ev: Seq<(Ymd, Seq<char>)>,
    months: Seq<(i32, u32)>,
    s: StringsView,
    widths: Seq<int>,
    j: int,
    k: int,
)
    requires
        0 <= j <= k,
    ensures
        md_rows(ev, months, s, widths, j).len() <= md_rows(ev, months, s, widths, k).len(),
        md_rows(ev, months, s, widths, k).take(md_rows(ev, months, s, widths, j).len() as int)
            == md_rows(ev, months, s, widths, j),
        k >= 1 ==> md_rows(ev, months, s, widths, k) == md_rows(ev, months, s, widths, k - 1)
            + md_row(ev, months, s, widths, k),
        md_row(ev, months, s, widths, k).take(2 + decimal(k as nat).len() as int) == seq!['|', ' ']
            + decimal(k as nat),
        md_row(ev, months, s, widths, k).last() == '\n',
    decreases k - j,
{
    let r = md_row(ev, months, s, widths, k);
    assert(r.take(2 + decimal(k as nat).len() as int) =~= seq!['|', ' '] + decimal(k as nat));
    if j < k {
        lemma_md_rows_in_day_order(ev, months, s, widths, j, k - 1);
        let a = md_rows(ev, months, s, widths, k - 1);
        let p = md_rows(ev, months, s, widths, j);
        assert((a + r).take(p.len() as int) =~= a.take(p.len() as int));
    } else {
        assert(md_rows(ev, months, s, widths, k).take(md_rows(ev, months, s, widths, k).len() as int)
            =~= md_rows(ev, months, s, widths, k));
    }
}

} // verus!
