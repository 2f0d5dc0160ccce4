use logsearch::ingest::{catchup_step, parse_log};
use logsearch::output::{group_by_date, query_output_from_string, render_plaintext, Message, QueryOutput};
use logsearch::sql::{Date, Stamp, Time};

fn day(y: i32, m: u8, d: u8) -> Date {
    Date { year: y, month: m, day: d }
}

#[test]
fn parses_matching_lines_and_skips_the_rest() {
    let data = "[12:00:00] <alice> hello\n\
[12:00:30] <bob> hi there\n\
not a message\n\
[99:00:00] <ghost> bad time\n";
    let rows = parse_log(data, day(2024, 1, 15), -1);
    assert_eq!(rows.len(), 2);
    assert_eq!(rows[0].offset, 0);
    assert_eq!(rows[0].author, "alice");
    assert_eq!(rows[0].body, "hello");
    assert_eq!(rows[1].offset, 1);
    assert_eq!(rows[1].author, "bob");
    assert_eq!(rows[1].body, "hi there");
}

#[test]
fn eet_winter_time_is_two_hours_ahead_of_utc() {
    let data = "[12:00:00] <alice> hello\n";
    let rows = parse_log(data, day(2024, 1, 15), -1);
    assert_eq!(rows[0].timestamp.date, day(2024, 1, 15));
    assert_eq!(
        rows[0].timestamp.time,
        Time { hour: 10, minute: 0, second: 0, nanosecond: 0 }
    );
}

#[test]
fn eet_summer_time_is_three_hours_ahead_of_utc() {
    let data = "[12:00:00] <alice> hello\n";
    let rows = parse_log(data, day(2024, 7, 15), -1);
    assert_eq!(
        rows[0].timestamp.time,
        Time { hour: 9, minute: 0, second: 0, nanosecond: 0 }
    );
}

#[test]
fn cut_offset_supersedes_earlier_lines() {
    let data = "[12:00:00] <a> one\n[12:00:01] <b> two\n[12:00:02] <c> three\n";
    let rows = parse_log(data, day(2024, 1, 15), 0);
    assert_eq!(rows.len(), 2);
    assert_eq!(rows[0].offset, 1);
    assert_eq!(rows[1].offset, 2);
}

#[test]
fn skipped_lines_still_count_for_offsets() {
    let data = "junk\n[12:00:00] <a> one\n";
    let rows = parse_log(data, day(2024, 1, 15), -1);
    assert_eq!(rows.len(), 1);
    assert_eq!(rows[0].offset, 1);
}

#[test]
fn crlf_lines_are_handled() {
    let data = "[12:00:00] <a> one\r\n[12:00:01] <b> two\r\n";
    let rows = parse_log(data, day(2024, 1, 15), -1);
    assert_eq!(rows.len(), 2);
    assert_eq!(rows[1].body, "two");
}

#[test]
fn author_cannot_contain_a_closing_angle() {
    // the first `>` ends the author, and a space must follow it
    let data = "[12:00:00] <a>b> c\n[12:00:01] <a> b> c\n";
    let rows = parse_log(data, day(2024, 1, 15), -1);
    assert_eq!(rows.len(), 1);
    assert_eq!(rows[0].author, "a");
    assert_eq!(rows[0].body, "b> c");
    assert_eq!(rows[0].offset, 1);
}

#[test]
fn output_format_names() {
    assert_eq!(query_output_from_string("json"), Some(QueryOutput::Json));
    assert_eq!(query_output_from_string("plaintext"), Some(QueryOutput::PlainText));
    assert_eq!(query_output_from_string("xml"), None);
    assert_eq!(query_output_from_string(""), None);
}

#[test]
fn plaintext_rendering_pads_times() {
    let msgs = vec![Message {
        id: 1,
        time: Stamp {
            date: Date { year: 2024, month: 1, day: 15 },
            time: Time { hour: 9, minute: 5, second: 7, nanosecond: 0 },
        },
        author: String::from("al"),
        body: String::from("hey"),
        offset: 0,
    }];
    assert_eq!(render_plaintext(&msgs), "[09:05:07] <al> hey\n");
}

#[test]
fn plaintext_rendering_of_nothing_is_empty() {
    assert_eq!(render_plaintext(&Vec::new()), "");
}

#[test]
fn catchup_step_advances_through_month_and_year_ends() {
    let today = day(2025, 6, 1);
    assert_eq!(
        catchup_step(day(2024, 1, 15), today, 0, 100),
        Some(day(2024, 1, 16))
    );
    assert_eq!(
        catchup_step(day(2024, 1, 31), today, 0, 100),
        Some(day(2024, 2, 1))
    );
    // leap year
    assert_eq!(
        catchup_step(day(2024, 2, 28), today, 0, 100),
        Some(day(2024, 2, 29))
    );
    assert_eq!(
        catchup_step(day(2023, 2, 28), today, 0, 100),
        Some(day(2023, 3, 1))
    );
    assert_eq!(
        catchup_step(day(2024, 12, 31), today, 0, 100),
        Some(day(2025, 1, 1))
    );
}

#[test]
fn catchup_step_stops_past_today_and_at_the_day_budget() {
    let today = day(2024, 1, 15);
    // today itself is still fetched
    assert_eq!(
        catchup_step(day(2024, 1, 15), today, 3, 100),
        Some(day(2024, 1, 16))
    );
    // past today: stop
    assert_eq!(catchup_step(day(2024, 1, 16), today, 0, 100), None);
    assert_eq!(catchup_step(day(2025, 1, 1), today, 0, 100), None);
    // budget spent: stop even with days left
    assert_eq!(catchup_step(day(2024, 1, 1), today, 100, 100), None);
}

fn msg(id: i32, d: Date, body: &str) -> Message {
    Message {
        id,
        time: Stamp {
            date: d,
            time: Time { hour: 12, minute: 0, second: 0, nanosecond: 0 },
        },
        author: String::from("al"),
        body: String::from(body),
        offset: id,
    }
}

#[test]
fn group_by_date_orders_days_newest_first() {
    let input = vec![
        msg(1, day(2024, 1, 15), "one"),
        msg(2, day(2024, 1, 14), "two"),
        msg(3, day(2024, 1, 15), "three"),
        msg(4, day(2024, 2, 1), "four"),
    ];
    let groups = group_by_date(input);
    assert_eq!(groups.len(), 3);
    assert_eq!(groups[0].date, day(2024, 2, 1));
    assert_eq!(groups[1].date, day(2024, 1, 15));
    assert_eq!(groups[2].date, day(2024, 1, 14));
    // each group keeps its day's messages in input order
    let bodies: Vec<&str> = groups[1].messages.iter().map(|m| m.body.as_str()).collect();
    assert_eq!(bodies, vec!["one", "three"]);
    assert_eq!(groups[2].messages.len(), 1);
    assert_eq!(groups[2].messages[0].body, "two");
}

#[test]
fn group_by_date_of_nothing_is_empty() {
    assert!(group_by_date(Vec::new()).is_empty());
}
