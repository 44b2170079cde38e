use calendar::instant::{parse_date_time, DecodeError, Instant};
use calendar::problem::Problem;
use calendar::report::{build_report, default_cutoff, resolve_events, select_and_sort, render_lines, ResolvedEvent};
use calendar::scanner::{scan_events, RawEventRecord, ScanError};

fn report(text: &str) -> Result<String, ScanError> {
    build_report(text, &default_cutoff())
}

fn at(year: i32, month: u32, day: u32, hour: u32, minute: u32) -> Instant {
    Instant { year, month, day, hour, minute }
}

#[test]
fn single_block_renders_one_line_at_utc_plus_nine() {
    let text = "BEGIN:VEVENT\nDTSTART:20220112T010000\nDTEND:20220112T030000\nSUMMARY:Standup\nEND:VEVENT\n";
    assert_eq!(report(text), Ok("2022/01/12 10:00\t2022/01/12 12:00\tStandup\n".to_string()));
}

#[test]
fn block_without_summary_is_dropped_sibling_kept() {
    let text = "BEGIN:VEVENT\nDTSTART:20220112T010000\nDTEND:20220112T030000\nEND:VEVENT\n\
BEGIN:VEVENT\nDTSTART:20220113T010000\nDTEND:20220113T020000\nSUMMARY:Review\nEND:VEVENT\n";
    assert_eq!(report(text), Ok("2022/01/13 10:00\t2022/01/13 11:00\tReview\n".to_string()));
}

#[test]
fn end_without_begin_fails() {
    let text = "SUMMARY:Loose\nEND:VEVENT\nBEGIN:VEVENT\nDTSTART:20220112T010000\nDTEND:20220112T030000\nSUMMARY:Standup\nEND:VEVENT\n";
    assert_eq!(report(text), Err(ScanError::UnmatchedEnd { line: 1 }));
}

#[test]
fn second_end_after_block_fails() {
    let text = "BEGIN:VEVENT\nEND:VEVENT\nEND:VEVENT\n";
    assert_eq!(report(text), Err(ScanError::UnmatchedEnd { line: 2 }));
}

#[test]
fn no_blocks_gives_empty_report() {
    assert_eq!(report(""), Ok(String::new()));
    assert_eq!(report("BEGIN:VCALENDAR\nDTSTART:20220112T010000\nSUMMARY:x\nEND:VCALENDAR\n"), Ok(String::new()));
}

#[test]
fn last_occurrence_of_each_field_wins() {
    let text = "BEGIN:VEVENT\nDTSTART:20220111T010000\nSUMMARY:First\nDTEND:20220111T020000\n\
DTSTART:20220112T010000\nSUMMARY:Second\nDTEND:20220112T050000\nEND:VEVENT\n";
    let records = scan_events(text).unwrap();
    assert_eq!(records.len(), 1);
    assert_eq!(records[0].start, Some(at(2022, 1, 12, 10, 0)));
    assert_eq!(records[0].end, Some(at(2022, 1, 12, 14, 0)));
    assert_eq!(records[0].summary, Some("Second".to_string()));
    assert_eq!(report(text), Ok("2022/01/12 10:00\t2022/01/12 14:00\tSecond\n".to_string()));
}

#[test]
fn decode_then_render_moves_nine_hours() {
    let t = parse_date_time("20220115T093000").unwrap();
    assert_eq!(t, at(2022, 1, 15, 18, 30));
    assert_eq!(t.render(), "2022/01/15 18:30");
}

#[test]
fn decode_ignores_seconds_and_zone_suffix() {
    assert_eq!(parse_date_time("20220115T0930"), Ok(at(2022, 1, 15, 18, 30)));
    assert_eq!(parse_date_time("20220115T093059Z"), Ok(at(2022, 1, 15, 18, 30)));
}

#[test]
fn decode_rolls_over_day_month_and_year() {
    assert_eq!(parse_date_time("20220131T150000"), Ok(at(2022, 2, 1, 0, 0)));
    assert_eq!(parse_date_time("20221231T200000"), Ok(at(2023, 1, 1, 5, 0)));
    assert_eq!(parse_date_time("20240228T230000"), Ok(at(2024, 2, 29, 8, 0)));
    assert_eq!(parse_date_time("20230228T230000"), Ok(at(2023, 3, 1, 8, 0)));
}

#[test]
fn decode_format_errors() {
    assert_eq!(parse_date_time("20220115T09"), Err(DecodeError::Format));
    assert_eq!(parse_date_time(""), Err(DecodeError::Format));
    assert_eq!(parse_date_time("2022O115T093000"), Err(DecodeError::Format));
    assert_eq!(parse_date_time("20220115T09x000"), Err(DecodeError::Format));
}

#[test]
fn decode_range_errors() {
    assert_eq!(parse_date_time("20221301T000000"), Err(DecodeError::Range));
    assert_eq!(parse_date_time("20220132T000000"), Err(DecodeError::Range));
    assert_eq!(parse_date_time("20230229T000000"), Err(DecodeError::Range));
    assert_eq!(parse_date_time("20220100T000000"), Err(DecodeError::Range));
    assert_eq!(parse_date_time("20220101T240000"), Err(DecodeError::Range));
    assert_eq!(parse_date_time("20220101T006000"), Err(DecodeError::Range));
    assert_eq!(parse_date_time("20000229T000000"), Ok(at(2000, 2, 29, 9, 0)));
    assert_eq!(parse_date_time("19000229T000000"), Err(DecodeError::Range));
}

#[test]
fn bad_timestamp_aborts_scan() {
    let text = "BEGIN:VEVENT\nDTSTART:20220112T010000\nDTEND:2022011\nSUMMARY:x\nEND:VEVENT\n";
    assert_eq!(report(text), Err(ScanError::BadTimestamp { line: 2, error: DecodeError::Format }));
    let text = "BEGIN:VEVENT\nDTSTART:20221312T010000\nEND:VEVENT\n";
    assert_eq!(report(text), Err(ScanError::BadTimestamp { line: 1, error: DecodeError::Range }));
}

#[test]
fn timestamps_outside_blocks_are_ignored() {
    let text = "DTSTART:garbage\nBEGIN:VEVENT\nDTSTART:20220112T010000\nDTEND:20220112T030000\nSUMMARY:A\nEND:VEVENT\nDTEND:bad\n";
    assert_eq!(report(text), Ok("2022/01/12 10:00\t2022/01/12 12:00\tA\n".to_string()));
}

#[test]
fn threshold_keeps_cutoff_and_later() {
    let text = "BEGIN:VEVENT\nDTSTART:20220109T145900\nDTEND:20220109T160000\nSUMMARY:Before\nEND:VEVENT\n\
BEGIN:VEVENT\nDTSTART:20220109T150000\nDTEND:20220109T160000\nSUMMARY:AtCutoff\nEND:VEVENT\n\
BEGIN:VEVENT\nDTSTART:20210101T000000\nDTEND:20210101T010000\nSUMMARY:Old\nEND:VEVENT\n";
    assert_eq!(report(text), Ok("2022/01/10 00:00\t2022/01/10 01:00\tAtCutoff\n".to_string()));
}

#[test]
fn output_sorted_by_start_end_summary() {
    let text = "BEGIN:VEVENT\nDTSTART:20220120T010000\nDTEND:20220120T020000\nSUMMARY:Late\nEND:VEVENT\n\
BEGIN:VEVENT\nDTSTART:20220115T010000\nDTEND:20220115T030000\nSUMMARY:b\nEND:VEVENT\n\
BEGIN:VEVENT\nDTSTART:20220115T010000\nDTEND:20220115T030000\nSUMMARY:a\nEND:VEVENT\n\
BEGIN:VEVENT\nDTSTART:20220115T010000\nDTEND:20220115T020000\nSUMMARY:z\nEND:VEVENT\n";
    let expected = "2022/01/15 10:00\t2022/01/15 11:00\tz\n\
2022/01/15 10:00\t2022/01/15 12:00\ta\n\
2022/01/15 10:00\t2022/01/15 12:00\tb\n\
2022/01/20 10:00\t2022/01/20 11:00\tLate\n";
    assert_eq!(report(text), Ok(expected.to_string()));
}

#[test]
fn sort_is_by_absolute_time_across_day_boundary() {
    let text = "BEGIN:VEVENT\nDTSTART:20220115T200000\nDTEND:20220115T210000\nSUMMARY:Night\nEND:VEVENT\n\
BEGIN:VEVENT\nDTSTART:20220115T100000\nDTEND:20220115T110000\nSUMMARY:Day\nEND:VEVENT\n";
    let expected = "2022/01/15 19:00\t2022/01/15 20:00\tDay\n2022/01/16 05:00\t2022/01/16 06:00\tNight\n";
    assert_eq!(report(text), Ok(expected.to_string()));
}

#[test]
fn lines_are_trimmed_and_crlf_accepted() {
    let text = "BEGIN:VCALENDAR\r\n  BEGIN:VEVENT  \r\n\tDTSTART:20220112T010000\r\nDTEND:20220112T030000\r\nSUMMARY:Standup meeting \r\nEND:VEVENT\r\nEND:VCALENDAR\r\n";
    assert_eq!(report(text), Ok("2022/01/12 10:00\t2022/01/12 12:00\tStandup meeting\n".to_string()));
}

#[test]
fn prefixes_are_case_sensitive() {
    let text = "BEGIN:VEVENT\ndtstart:20220112T010000\nDTSTART:20220112T010000\nDTEND:20220112T030000\nsummary:x\nEND:VEVENT\n";
    let records = scan_events(text).unwrap();
    assert_eq!(records[0].summary, None);
    assert_eq!(report(text), Ok(String::new()));
}

#[test]
fn nested_begin_starts_fresh() {
    let text = "BEGIN:VEVENT\nSUMMARY:Lost\nDTSTART:20220112T010000\nBEGIN:VEVENT\nDTEND:20220112T030000\nEND:VEVENT\n";
    let records = scan_events(text).unwrap();
    assert_eq!(records.len(), 1);
    assert_eq!(records[0].start, None);
    assert_eq!(records[0].summary, None);
    assert_eq!(records[0].end, Some(at(2022, 1, 12, 12, 0)));
}

#[test]
fn unterminated_block_yields_no_record() {
    let text = "BEGIN:VEVENT\nDTSTART:20220112T010000\nDTEND:20220112T030000\nSUMMARY:Open";
    assert_eq!(scan_events(text).unwrap().len(), 0);
    assert_eq!(report(text), Ok(String::new()));
}

#[test]
fn summary_kept_verbatim() {
    let text = "BEGIN:VEVENT\nDTSTART:20220112T010000\nDTEND:20220112T030000\nSUMMARY:会議: a\\,b\nEND:VEVENT\n";
    assert_eq!(report(text), Ok("2022/01/12 10:00\t2022/01/12 12:00\t会議: a\\,b\n".to_string()));
}

#[test]
fn render_pads_and_signs_years() {
    assert_eq!(at(2022, 3, 4, 5, 6).render(), "2022/03/04 05:06");
    assert_eq!(parse_date_time("00000101T000000").unwrap().render(), "0000/01/01 09:00");
    assert_eq!(parse_date_time("99991231T230000").unwrap().render(), "+10000/01/01 08:00");
}

#[test]
fn pipeline_steps_compose() {
    let records = vec![
        RawEventRecord { start: Some(at(2022, 1, 11, 0, 0)), end: Some(at(2022, 1, 11, 1, 0)), summary: Some("B".to_string()) },
        RawEventRecord { start: Some(at(2022, 1, 12, 0, 0)), end: None, summary: Some("NoEnd".to_string()) },
        RawEventRecord { start: Some(at(2022, 1, 9, 0, 0)), end: Some(at(2022, 1, 9, 1, 0)), summary: Some("Early".to_string()) },
        RawEventRecord { start: Some(at(2022, 1, 10, 0, 0)), end: Some(at(2022, 1, 10, 1, 0)), summary: Some("A".to_string()) },
    ];
    let events = resolve_events(records);
    assert_eq!(events.len(), 3);
    let selected = select_and_sort(events, &default_cutoff());
    let names: Vec<&str> = selected.iter().map(|e: &ResolvedEvent| e.summary.as_str()).collect();
    assert_eq!(names, vec!["A", "B"]);
    assert_eq!(render_lines(&selected), "2022/01/10 00:00\t2022/01/10 01:00\tA\n2022/01/11 00:00\t2022/01/11 01:00\tB\n");
}

#[test]
fn custom_cutoff() {
    let text = "BEGIN:VEVENT\nDTSTART:20220101T000000\nDTEND:20220101T010000\nSUMMARY:NewYear\nEND:VEVENT\n";
    assert_eq!(build_report(text, &at(2022, 1, 1, 9, 0)), Ok("2022/01/01 09:00\t2022/01/01 10:00\tNewYear\n".to_string()));
    assert_eq!(build_report(text, &at(2022, 1, 1, 9, 1)), Ok(String::new()));
}

#[test]
fn is_before_orders_lexicographically() {
    assert!(at(2022, 1, 1, 0, 0).is_before(&at(2022, 1, 1, 0, 1)));
    assert!(at(2021, 12, 31, 23, 59).is_before(&at(2022, 1, 1, 0, 0)));
    assert!(!at(2022, 1, 1, 0, 0).is_before(&at(2022, 1, 1, 0, 0)));
    assert!(!at(2022, 2, 1, 0, 0).is_before(&at(2022, 1, 31, 23, 59)));
}

#[test]
fn problem_url() {
    let p = Problem { id: "abc001_1".to_string(), contest_id: "abc001".to_string(), title: "Sample".to_string() };
    assert_eq!(p.generate_problem_url(), "https://atcoder.jp/contests/abc001/tasks/abc001_1");
}
