use vstd::prelude::*;

use chrono::Datelike;
use chrono::TimeZone;

use crate::parser::push_string_char;
use crate::sql::Date;
use crate::sql::Stamp;
use crate::sql::Time;

verus! {

/// What converting an EET wall-clock moment to UTC yields, as a function of
/// the values alone (the zone's rules are fixed data); `None` for an invalid
/// date or time, or a local time that is ambiguous or skipped.
pub uninterp spec fn eet_to_utc(y: int, mo: int, da: int, h: int, mi: int, s: int) -> Option<
    (i32, u8, u8, u8, u8, u8),
>;

/// Relies on chrono_tz's `EET` zone with chrono's `from_local_datetime`:
/// interprets the moment as Eastern European local time and converts it to
/// UTC; `Single` is a successful conversion.
#[verifier::external_body]
fn eet_local_to_utc(d: Date, t: Time) -> (r: Option<(i32, u8, u8, u8, u8, u8)>)
    ensures
        r == eet_to_utc(
            d.year as int,
            d.month as int,
            d.day as int,
            t.hour as int,
            t.minute as int,
            t.second as int,
        ),
{
    let nd = chrono::NaiveDate::from_ymd_opt(d.year, d.month as u32, d.day as u32)?;
    let nt = chrono::NaiveTime::from_hms_opt(t.hour as u32, t.minute as u32, t.second as u32)?;
    match chrono_tz::Tz::EET.from_local_datetime(&nd.and_time(nt)) {
        chrono::LocalResult::Single(v) => {
            let u = v.naive_utc();
            let ut = chrono::Timelike::hour(&u);
            let um = chrono::Timelike::minute(&u);
            let us = chrono::Timelike::second(&u);
            Some((u.year(), u.month() as u8, u.day() as u8, ut as u8, um as u8, us as u8))
        },
        _ => None,
    }
}

/// One message parsed out of a daily log.
#[derive(Debug)]
pub struct LogRow {
    pub timestamp: Stamp,
    pub offset: i32,
    pub author: String,
    pub body: String,
}

/// Ghost mirror of `LogRow`.
pub struct SpecRow {
    pub timestamp: Stamp,
    pub offset: int,
    pub author: Seq<char>,
    pub body: Seq<char>,
}

impl View for LogRow {
    type V = SpecRow;

    open spec fn view(&self) -> SpecRow {
        SpecRow {
            timestamp: self.timestamp,
            offset: self.offset as int,
            author: self.author@,
            body: self.body@,
        }
    }
}

pub open spec fn rows_of(s: Seq<LogRow>) -> Seq<SpecRow>
    decreases s,
{
    if s.len() == 0 {
        Seq::empty()
    } else {
        rows_of(s.drop_last()).push(s.last()@)
    }
}

/// The first position at or after `i` holding the character, or the length.
pub open spec fn char_end(s: Seq<char>, i: int, c: char) -> int
    decreases s.len() - i,
{
    if i < s.len() && s[i] != c {
        char_end(s, i + 1, c)
    } else {
        i
    }
}

pub proof fn lemma_char_end(s: Seq<char>, i: int, c: char)
    requires
        0 <= i <= s.len(),
    ensures
        i <= char_end(s, i, c) <= s.len(),
        forall|k: int| i <= k < char_end(s, i, c) ==> s[k] != c,
        char_end(s, i, c) < s.len() ==> s[char_end(s, i, c)] == c,
    decreases s.len() - i,
{
    if i < s.len() && s[i] != c {
        lemma_char_end(s, i + 1, c);
    }
}

pub open spec fn spec_is_digit(c: char) -> bool {
    '0' <= c && c <= '9'
}

pub open spec fn dval(c: char) -> int {
    (c as u32) - 48
}

/// A log line `[HH:MM:SS] <author> body`: the time digits, the author up to
/// the first `>`, and the non-empty remainder after `> `.  Anything else is
/// not a message line.
pub open spec fn spec_parse_line(l: Seq<char>) -> Option<((u8, u8, u8), Seq<char>, Seq<char>)> {
    if l.len() >= 13 && l[0] == '[' && spec_is_digit(l[1]) && spec_is_digit(l[2]) && l[3] == ':'
        && spec_is_digit(l[4]) && spec_is_digit(l[5]) && l[6] == ':' && spec_is_digit(l[7])
        && spec_is_digit(l[8]) && l[9] == ']' && l[10] == ' ' && l[11] == '<' {
        let g = char_end(l, 12, '>');
        if g < l.len() && g > 12 && g + 2 < l.len() && l[g + 1] == ' ' {
            let h = 10 * dval(l[1]) + dval(l[2]);
            let mi = 10 * dval(l[4]) + dval(l[5]);
            let s = 10 * dval(l[7]) + dval(l[8]);
            Some(((h as u8, mi as u8, s as u8), l.subrange(12, g), l.subrange(g + 2, l.len() as int)))
        } else {
            None
        }
    } else {
        None
    }
}

/// Lines of a text: split at `'\n'`, dropping one trailing `'\r'` from each
/// line, with no final empty line after a terminating newline.
pub open spec fn spec_split_lines(s: Seq<char>) -> Seq<Seq<char>>
    decreases s.len(),
{
    if s.len() == 0 {
        Seq::empty()
    } else {
        let e = char_end(s, 0, '\n');
        let raw = s.subrange(0, e);
        let line = if raw.len() > 0 && raw.last() == '\r' {
            raw.drop_last()
        } else {
            raw
        };
        if 0 <= e && e < s.len() {
            seq![line] + spec_split_lines(s.subrange(e + 1, s.len() as int))
        } else {
            seq![line]
        }
    }
}

/// The row a line contributes, if any: a parsed message whose local time
/// converts to UTC and whose line index lies beyond the supersession cut.
pub open spec fn spec_row_at(l: Seq<char>, date: Date, cut: int, off: int) -> Option<SpecRow> {
    match spec_parse_line(l) {
        None => None,
        Some(tab) => {
            let t = tab.0;
            match eet_to_utc(
                date.year as int,
                date.month as int,
                date.day as int,
                t.0 as int,
                t.1 as int,
                t.2 as int,
            ) {
                None => None,
                Some(u) => if off <= cut || off > 2147483647 {
                    None
                } else {
                    Some(
                        SpecRow {
                            timestamp: Stamp {
                                date: Date { year: u.0, month: u.1, day: u.2 },
                                time: Time {
                                    hour: u.3,
                                    minute: u.4,
                                    second: u.5,
                                    nanosecond: 0,
                                },
                            },
                            offset: off,
                            author: tab.1,
                            body: tab.2,
                        },
                    )
                },
            }
        },
    }
}

/// All rows of a day's log, in line order.
pub open spec fn spec_ingest_rows(lines: Seq<Seq<char>>, date: Date, cut: int) -> Seq<SpecRow>
    decreases lines,
{
    if lines.len() == 0 {
        Seq::empty()
    } else {
        spec_ingest_rows(lines.drop_last(), date, cut) + (match spec_row_at(
            lines.last(),
            date,
            cut,
            lines.len() - 1,
        ) {
            Some(r) => seq![r],
            None => Seq::empty(),
        })
    }
}

#[verifier::loop_isolation(false)]
fn chars_to_string(v: &Vec<char>, from: usize, to: usize) -> (r: String)
    requires
        from <= to <= v@.len(),
    ensures
        r@ == v@.subrange(from as int, to as int),
{
    let mut out = String::new();
    let mut i: usize = from;
    while i < to
        invariant
            from <= i <= to,
            out@ == v@.subrange(from as int, i as int),
        decreases to - i,
    {
        push_string_char(&mut out, v[i]);
        proof {
            assert(out@ =~= v@.subrange(from as int, i + 1 as int));
        }
        i += 1;
    }
    out
}

#[verifier::loop_isolation(false)]
fn digit_at(v: &Vec<char>, i: usize) -> (r: Option<u8>)
    requires
        i < v@.len(),
    ensures
        match r {
            Some(d) => spec_is_digit(v@[i as int]) && d as int == dval(v@[i as int]) && d < 10,
            None => !spec_is_digit(v@[i as int]),
        },
{
    let c = v[i];
    if c >= '0' && c <= '9' {
        Some(((c as u32) - 48) as u8)
    } else {
        None
    }
}

/// Parse one log line into its time digits, author and body.
#[verifier::loop_isolation(false)]
fn parse_line(l: &Vec<char>) -> (r: Option<((u8, u8, u8), String, String)>)
    ensures
        match r {
            Some(tab) => spec_parse_line(l@) == Some((tab.0, tab.1@, tab.2@)),
            None => spec_parse_line(l@) is None,
        },
{
    if l.len() < 13 {
        return None;
    }
    if !(l[0] == '[' && l[3] == ':' && l[6] == ':' && l[9] == ']' && l[10] == ' ' && l[11]
        == '<') {
        return None;
    }
    let d1 = match digit_at(l, 1) {
        Some(d) => d,
        None => {
            return None;
        },
    };
    let d2 = match digit_at(l, 2) {
        Some(d) => d,
        None => {
            return None;
        },
    };
    let d4 = match digit_at(l, 4) {
        Some(d) => d,
        None => {
            return None;
        },
    };
    let d5 = match digit_at(l, 5) {
        Some(d) => d,
        None => {
            return None;
        },
    };
    let d7 = match digit_at(l, 7) {
        Some(d) => d,
        None => {
            return None;
        },
    };
    let d8 = match digit_at(l, 8) {
        Some(d) => d,
        None => {
            return None;
        },
    };
    proof {
        lemma_char_end(l@, 12, '>');
    }
    let mut g: usize = 12;
    while g < l.len() && l[g] != '>'
        invariant
            12 <= g <= l@.len(),
            char_end(l@, g as int, '>') == char_end(l@, 12, '>'),
        decreases l@.len() - g,
    {
        g += 1;
    }
    if !(g < l.len() && g > 12) {
        return None;
    }
    if !(l.len() - g > 2 && l[g + 1] == ' ') {
        return None;
    }
    let author = chars_to_string(l, 12, g);
    let body = chars_to_string(l, g + 2, l.len());
    let h = 10 * d1 + d2;
    let mi = 10 * d4 + d5;
    let s = 10 * d7 + d8;
    Some(((h, mi, s), author, body))
}

/// Split a text into its lines.
#[verifier::loop_isolation(false)]
fn split_lines(v: &Vec<char>) -> (r: Vec<Vec<char>>)
    ensures
        r.deep_view() == spec_split_lines(v@),
{
    let ghost s = v@;
    let mut out: Vec<Vec<char>> = Vec::new();
    proof {
        assert(s.skip(0) =~= s);
        assert(out.deep_view() + spec_split_lines(s) =~= spec_split_lines(s));
    }
    let mut p: usize = 0;
    while p < v.len()
        invariant
            0 <= p <= v@.len(),
            out.deep_view() + spec_split_lines(s.skip(p as int)) == spec_split_lines(s),
        decreases v@.len() - p,
    {
        let ghost rem = s.skip(p as int);
        proof {
            lemma_char_end(rem, 0, '\n');
        }
        let mut e: usize = p;
        while e < v.len() && v[e] != '\n'
            invariant
                p <= e <= v@.len(),
                char_end(rem, (e - p) as int, '\n') == char_end(rem, 0, '\n'),
                forall|k: int| 0 <= k < e - p ==> rem[k] != '\n',
            decreases v@.len() - e,
        {
            e += 1;
        }
        proof {
            assert(char_end(rem, 0, '\n') == e - p);
            assert(rem.subrange(0, (e - p) as int) =~= s.subrange(p as int, e as int));
        }
        let line_end = if e > p && v[e - 1] == '\r' {
            e - 1
        } else {
            e
        };
        let mut line: Vec<char> = Vec::new();
        let mut i: usize = p;
        while i < line_end
            invariant
                p <= i <= line_end <= v@.len(),
                line@ == s.subrange(p as int, i as int),
            decreases line_end - i,
        {
            line.push(v[i]);
            proof {
                assert(line@ =~= s.subrange(p as int, i + 1 as int));
            }
            i += 1;
        }
        let ghost out_prev = out.deep_view();
        out.push(line);
        proof {
            let raw = rem.subrange(0, (e - p) as int);
            let spec_line = if raw.len() > 0 && raw.last() == '\r' {
                raw.drop_last()
            } else {
                raw
            };
            assert(line@ =~= spec_line);
            assert(out.deep_view() =~~= out_prev.push(line@));
            if e < v.len() {
                assert(rem.subrange((e - p) + 1, rem.len() as int) =~= s.skip(e + 1));
                assert(spec_split_lines(rem) == seq![spec_line] + spec_split_lines(
                    s.skip(e + 1),
                ));
                assert(out.deep_view() + spec_split_lines(s.skip(e + 1)) =~~= out_prev + (seq![
                    spec_line,
                ] + spec_split_lines(s.skip(e + 1))));
                assert(out.deep_view() + spec_split_lines(s.skip(e + 1)) =~~= spec_split_lines(
                    s,
                ));
            } else {
                assert(spec_split_lines(rem) == seq![spec_line]);
                assert(out.deep_view() =~~= out_prev + seq![spec_line]);
                assert(s.skip(v@.len() as int) =~= Seq::<char>::empty());
                assert(out.deep_view() + spec_split_lines(s.skip(v@.len() as int))
                    =~~= spec_split_lines(s));
            }
        }
        if e < v.len() {
            p = e + 1;
        } else {
            p = v.len();
        }
    }
    proof {
        if p == 0 {
            assert(s =~= Seq::<char>::empty());
        } else {
            assert(s.skip(p as int) =~= Seq::<char>::empty());
        }
        assert(out.deep_view() + spec_split_lines(s.skip(p as int)) =~= out.deep_view());
    }
    out
}

/// Parse a whole daily log: each line that matches the message pattern and
/// converts to UTC becomes a row, keyed by its 0-based line index; rows at or
/// before the supersession cut are dropped.
#[verifier::loop_isolation(false)]
pub fn parse_log(data: &str, date: Date, cut_offset: i32) -> (r: Vec<LogRow>)
    ensures
        rows_of(r@) == spec_ingest_rows(spec_split_lines(data@), date, cut_offset as int),
        forall|k: int| 0 <= k < r@.len() ==> (#[trigger] r@[k])@.offset > cut_offset as int,
    decreases data@.len(),
{
    let chars = crate::parser::str_to_chars(data);
    let lines = split_lines(&chars);
    let ghost ls = lines.deep_view();
    let mut out: Vec<LogRow> = Vec::new();
    let mut i: usize = 0;
    while i < lines.len()
        invariant
            0 <= i <= lines@.len(),
            ls == lines.deep_view(),
            ls.len() == lines@.len(),
            rows_of(out@) == spec_ingest_rows(ls.take(i as int), date, cut_offset as int),
            forall|k: int|
                0 <= k < out@.len() ==> (#[trigger] out@[k])@.offset > cut_offset as int,
        decreases lines@.len() - i,
    {
        proof {
            assert(ls.take(i + 1 as int).drop_last() =~= ls.take(i as int));
            assert(ls.take(i + 1 as int).last() == ls[i as int]);
            assert(ls[i as int] =~= lines@[i as int]@);
        }
        let ghost out_prev = out@;
        match parse_line(&lines[i]) {
            None => {},
            Some(tab) => {
                let (t, author, body) = tab;
                let clock = Time { hour: t.0, minute: t.1, second: t.2, nanosecond: 0 };
                match eet_local_to_utc(date, clock) {
                    None => {},
                    Some(u) => {
                        if i <= 2147483647 && (cut_offset < 0 || i > (cut_offset as usize)) {
                            let row = LogRow {
                                timestamp: Stamp {
                                    date: Date { year: u.0, month: u.1, day: u.2 },
                                    time: Time {
                                        hour: u.3,
                                        minute: u.4,
                                        second: u.5,
                                        nanosecond: 0,
                                    },
                                },
                                offset: i as i32,
                                author,
                                body,
                            };
                            out.push(row);
                            proof {
                                assert(out@.drop_last() =~= out_prev);
                                assert(rows_of(out@) == rows_of(out_prev).push(
                                    out@.last()@,
                                ));
                                assert(rows_of(out@) =~= rows_of(out_prev) + seq![
                                    out@.last()@,
                                ]);
                            }
                        }
                    },
                }
            },
        }
        proof {
            assert(rows_of(out@) =~= spec_ingest_rows(
                ls.take(i + 1 as int),
                date,
                cut_offset as int,
            ));
        }
        i += 1;
    }
    proof {
        assert(ls.take(lines@.len() as int) =~= ls);
    }
    out
}

/// Calendar order on plain dates.
pub open spec fn spec_date_le(a: Date, b: Date) -> bool {
    if a.year != b.year {
        a.year < b.year
    } else if a.month != b.month {
        a.month < b.month
    } else {
        a.day <= b.day
    }
}

/// Days of a Gregorian month.
pub open spec fn spec_days_in_month(y: int, m: int) -> int {
    if m == 1 || m == 3 || m == 5 || m == 7 || m == 8 || m == 10 || m == 12 {
        31
    } else if m == 2 {
        if (y % 4 == 0 && y % 100 != 0) || y % 400 == 0 {
            29
        } else {
            28
        }
    } else {
        30
    }
}

/// The following calendar day.
pub open spec fn spec_next_day(d: Date) -> Date {
    if (d.day as int) < spec_days_in_month(d.year as int, d.month as int) {
        Date { year: d.year, month: d.month, day: (d.day + 1) as u8 }
    } else if d.month < 12 {
        Date { year: d.year, month: (d.month + 1) as u8, day: 1 }
    } else {
        Date { year: (d.year + 1) as i32, month: 1, day: 1 }
    }
}

fn days_in_month(y: i32, m: u8) -> (r: u8)
    ensures
        r as int == spec_days_in_month(y as int, m as int),
{
    if m == 1 || m == 3 || m == 5 || m == 7 || m == 8 || m == 10 || m == 12 {
        31
    } else if m == 2 {
        if (y % 4 == 0 && y % 100 != 0) || y % 400 == 0 {
            29
        } else {
            28
        }
    } else {
        30
    }
}

/// One decision of the catch-up loop: fetch the given day and continue at the
/// following one, or stop.  The loop stops once the day lies past `today` or
/// once the day budget is spent, so a rewound clock cannot make it run
/// forever.
pub open spec fn spec_catchup_step(date: Date, today: Date, days_done: u32, max_days: u32) -> Option<
    Date,
> {
    if spec_date_le(date, today) && days_done < max_days {
        Some(spec_next_day(date))
    } else {
        None
    }
}

/// Decide one catch-up iteration: `Some(next)` says to ingest `date` and
/// continue at `next`; `None` says to stop.
pub fn catchup_step(date: Date, today: Date, days_done: u32, max_days: u32) -> (r: Option<Date>)
    requires
        date.year < 2147483647,
        date.day < 255,
        date.month <= 12,
    ensures
        r == spec_catchup_step(date, today, days_done, max_days),
{
    let le = if date.year != today.year {
        date.year < today.year
    } else if date.month != today.month {
        date.month < today.month
    } else {
        date.day <= today.day
    };
    if !(le && days_done < max_days) {
        return None;
    }
    let dim = days_in_month(date.year, date.month);
    if date.day < dim {
        Some(Date { year: date.year, month: date.month, day: date.day + 1 })
    } else if date.month < 12 {
        Some(Date { year: date.year, month: date.month + 1, day: 1 })
    } else {
        Some(Date { year: date.year + 1, month: 1, day: 1 })
    }
}

/// The per-day store model: rows keyed by line offset.
pub open spec fn prune_after(store: Map<int, SpecRow>, cut: int) -> Map<int, SpecRow> {
    Map::new(|k: int| store.dom().contains(k) && k <= cut, |k: int| store[k])
}

pub open spec fn insert_rows(store: Map<int, SpecRow>, rows: Seq<SpecRow>) -> Map<int, SpecRow>
    decreases rows,
{
    if rows.len() == 0 {
        store
    } else {
        insert_rows(store, rows.drop_last()).insert(rows.last().offset, rows.last())
    }
}

/// One day's supersession step: delete every stored row past the cut, then
/// insert the day's parsed rows.
pub open spec fn apply_ingest(store: Map<int, SpecRow>, rows: Seq<SpecRow>, cut: int) -> Map<
    int,
    SpecRow,
> {
    insert_rows(prune_after(store, cut), rows)
}

proof fn lemma_insert_rows_past_cut(store: Map<int, SpecRow>, rows: Seq<SpecRow>, cut: int)
    requires
        forall|k: int| 0 <= k < rows.len() ==> (#[trigger] rows[k]).offset > cut,
    ensures
        prune_after(insert_rows(store, rows), cut) =~= prune_after(store, cut),
    decreases rows,
{
    if rows.len() > 0 {
        lemma_insert_rows_past_cut(store, rows.drop_last(), cut);
        assert(rows.drop_last().len() == rows.len() - 1);
        assert(forall|k: int|
            0 <= k < rows.len() - 1 ==> (#[trigger] rows.drop_last()[k]).offset > cut);
        assert(rows[rows.len() - 1].offset > cut);
    }
}

proof fn lemma_prune_idempotent(store: Map<int, SpecRow>, cut: int)
    ensures
        prune_after(prune_after(store, cut), cut) =~= prune_after(store, cut),
{
}

/// Law: ingesting the same day's rows twice is the same as ingesting them
/// once — re-running catch-up over an unchanged log makes no net change to
/// the store, as long as every row lies past the supersession cut (which the
/// parser guarantees).
pub proof fn lemma_ingest_idempotent(store: Map<int, SpecRow>, rows: Seq<SpecRow>, cut: int)
    requires
        forall|k: int| 0 <= k < rows.len() ==> (#[trigger] rows[k]).offset > cut,
    ensures
        apply_ingest(apply_ingest(store, rows, cut), rows, cut) =~= apply_ingest(
            store,
            rows,
            cut,
        ),
{
    let once = apply_ingest(store, rows, cut);
    lemma_insert_rows_past_cut(prune_after(store, cut), rows, cut);
    lemma_prune_idempotent(store, cut);
    assert(prune_after(once, cut) =~= prune_after(store, cut));
}

} // verus!
