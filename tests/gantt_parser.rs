use chrono::{Datelike, NaiveDate};
use gram::gantt::date::Date;
use gram::gantt::parser::parse;

fn day(year: i32, month: u32, d: u32) -> Date {
    Date { day: NaiveDate::from_ymd_opt(year, month, d).unwrap().num_days_from_ce() }
}

#[test]
fn test_whitespaces_input() {
    let input = "
Design              :   01-01-2026,     05-01-2026 \t
Implementation      :   05-01-2026,     15-01-2026 \t
Testing             :   15-01-2026,     20-01-2026 \t
Bugfix              :   20-01-2026,     03-02-2026 \t
Release             :   03-02-2026,     06-02-2026 \t";

    let gantt_chart = parse(input).unwrap();
    assert_eq!(gantt_chart.tasks.len(), 5);
    assert_eq!(
        gantt_chart.tasks[0].start_date,
        day(2026, 1, 1)
    );
    assert_eq!(
        gantt_chart.tasks[0].end_date,
        day(2026, 1, 5)
    );
    assert_eq!(
        gantt_chart.tasks[1].start_date,
        day(2026, 1, 5)
    );
    assert_eq!(
        gantt_chart.tasks[1].end_date,
        day(2026, 1, 15)
    );
    assert_eq!(
        gantt_chart.tasks[2].start_date,
        day(2026, 1, 15)
    );
    assert_eq!(
        gantt_chart.tasks[2].end_date,
        day(2026, 1, 20)
    );
    assert_eq!(
        gantt_chart.tasks[3].start_date,
        day(2026, 1, 20)
    );
    assert_eq!(
        gantt_chart.tasks[3].end_date,
        day(2026, 2, 3)
    );
    assert_eq!(
        gantt_chart.tasks[4].start_date,
        day(2026, 2, 3)
    );
    assert_eq!(
        gantt_chart.tasks[4].end_date,
        day(2026, 2, 6)
    );
}

#[test]
fn test_auto_start_date() {
    let input = "
Design: 01-01-2026, 05-01-2026
Implementation: continue, 15-01-2026
Testing: continue, 20-01-2026
Bugfix: continue, 03-02-2026
Release: continue, 06-02-2026";

    let gantt_chart = parse(input).unwrap();
    assert_eq!(gantt_chart.tasks.len(), 5);
    assert_eq!(
        gantt_chart.tasks[0].start_date,
        day(2026, 1, 1)
    );
    assert_eq!(
        gantt_chart.tasks[0].end_date,
        day(2026, 1, 5)
    );
    assert_eq!(
        gantt_chart.tasks[1].start_date,
        day(2026, 1, 5)
    );
    assert_eq!(
        gantt_chart.tasks[1].end_date,
        day(2026, 1, 15)
    );
    assert_eq!(
        gantt_chart.tasks[2].start_date,
        day(2026, 1, 15)
    );
    assert_eq!(
        gantt_chart.tasks[2].end_date,
        day(2026, 1, 20)
    );
    assert_eq!(
        gantt_chart.tasks[3].start_date,
        day(2026, 1, 20)
    );
    assert_eq!(
        gantt_chart.tasks[3].end_date,
        day(2026, 2, 3)
    );
    assert_eq!(
        gantt_chart.tasks[4].start_date,
        day(2026, 2, 3)
    );
    assert_eq!(
        gantt_chart.tasks[4].end_date,
        day(2026, 2, 6)
    );
}

#[test]
fn test_duration() {
    let input = "
Design: 01-01-2026, 4d
Implementation: 05-01-2026, 10d
Testing: 15-01-2026, 5d
Bugfix: 20-01-2026, 14d
Release: 03-02-2026, 3d";

    let gantt_chart = parse(input).unwrap();
    assert_eq!(gantt_chart.tasks.len(), 5);
    assert_eq!(
        gantt_chart.tasks[0].start_date,
        day(2026, 1, 1)
    );
    assert_eq!(
        gantt_chart.tasks[0].end_date,
        day(2026, 1, 5)
    );
    assert_eq!(
        gantt_chart.tasks[1].start_date,
        day(2026, 1, 5)
    );
    assert_eq!(
        gantt_chart.tasks[1].end_date,
        day(2026, 1, 15)
    );
    assert_eq!(
        gantt_chart.tasks[2].start_date,
        day(2026, 1, 15)
    );
    assert_eq!(
        gantt_chart.tasks[2].end_date,
        day(2026, 1, 20)
    );
    assert_eq!(
        gantt_chart.tasks[3].start_date,
        day(2026, 1, 20)
    );
    assert_eq!(
        gantt_chart.tasks[3].end_date,
        day(2026, 2, 3)
    );
    assert_eq!(
        gantt_chart.tasks[4].start_date,
        day(2026, 2, 3)
    );
    assert_eq!(
        gantt_chart.tasks[4].end_date,
        day(2026, 2, 6)
    );
}

#[test]
fn test_start_date_not_specifed() {
    let input = "
Design: continue, 05-01-2026
Implementation: continue, 15-01-2026
Testing: continue, 20-01-2026
Bugfix: continue, 03-02-2026
Release: continue, 06-02-2026";

    let gantt_chart = parse(input);
    assert!(gantt_chart.is_err());
    assert!(
        gantt_chart
            .unwrap_err()
            .message
            .contains("No previous task exists")
    );
}

#[test]
fn test_incorrect_date_format() {
    let input = "
Design: 2026-01-01, 2026-05-01
Implementation: 05-01-2026, 15-01-2026
Testing: 15-01-2026, 20-01-2026
Bugfix: 20-01-2026, 03-02-2026
Release: 03-02-2026, 06-02-2026";

    let gantt_chart = parse(input);
    assert!(gantt_chart.is_err());
    assert!(
        gantt_chart
            .unwrap_err()
            .message
            .contains("Invalid start date")
    );
}
