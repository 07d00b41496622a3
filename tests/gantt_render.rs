use chrono::{Datelike, NaiveDate};
use gram::gantt::date::Date;
use gram::gantt::layout::{layout, TaskLayout};
use gram::gantt::parser::{parse, GanttChart, Task};
use gram::gantt::renderer::render;

fn day(year: i32, month: u32, d: u32) -> Date {
    Date { day: NaiveDate::from_ymd_opt(year, month, d).unwrap().num_days_from_ce() }
}

#[test]
fn single_task_fills_the_chart() {
    let chart = GanttChart {
        tasks: vec![Task { start_date: day(2026, 1, 1), end_date: day(2026, 1, 11), name: "T".to_string() }],
    };
    let l = layout(&chart);
    assert_eq!(l.width, 132);
    assert_eq!(l.height, 8);
    assert_eq!(
        l.task_layouts,
        vec![TaskLayout { x_start: 6, x_end: 126, y: 2, name: "T".to_string() }]
    );
    assert_eq!(l.tick_layouts[1].x, 19);
    assert_eq!(l.tick_layouts[1].date, day(2026, 1, 2));
    let text = render(&l);
    let rows: Vec<Vec<char>> = text.split('\n').map(|r| r.chars().collect()).collect();
    assert_eq!(rows.len(), 8);
    assert_eq!(rows[2][6], '┌');
    assert_eq!(rows[2][126], '┐');
    assert_eq!(rows[3][6], '|');
    assert_eq!(rows[3][66], 'T');
    assert_eq!(rows[3][19], ' ');
    assert_eq!(rows[1][19], '|');
    let labels: String = rows[6].iter().collect();
    assert!(labels.contains("01-01-2026"));
    assert!(labels.contains("02-01-2026"));
}

#[test]
fn same_day_chart_uses_one_day_span() {
    let chart = GanttChart {
        tasks: vec![Task { start_date: day(2026, 3, 1), end_date: day(2026, 3, 1), name: "M".to_string() }],
    };
    let l = layout(&chart);
    assert_eq!(l.task_layouts[0].x_start, 6);
    assert_eq!(l.task_layouts[0].x_end, 6);
    assert!(l.tick_layouts.iter().all(|t| t.date == day(2026, 3, 1)));
}

#[test]
fn boundary_dates_map_to_chart_edges() {
    let chart = parse("A: 01-01-2026, 10-01-2026\nB: 05-01-2026, 13-02-2026").unwrap();
    let l = layout(&chart);
    assert_eq!(l.task_layouts[0].x_start, 6);
    assert_eq!(l.task_layouts[1].x_end, 126);
    assert_eq!(l.task_layouts[1].y, l.task_layouts[0].y + 3);
    assert!(l.task_layouts.iter().all(|t| t.x_start <= t.x_end));
}

#[test]
fn long_name_flows_past_the_box() {
    let chart = GanttChart {
        tasks: vec![
            Task { start_date: day(2026, 1, 1), end_date: day(2026, 1, 2), name: "Long".to_string() },
            Task { start_date: day(2026, 1, 2), end_date: day(2026, 1, 31), name: "x".to_string() },
        ],
    };
    let l = layout(&chart);
    assert_eq!(l.task_layouts[0].x_end, 10);
    let text = render(&l);
    let row: String = text.split('\n').nth(3).unwrap().chars().skip(11).take(4).collect();
    assert_eq!(row, "Long");
}

#[test]
fn parse_errors_name_the_line() {
    let err = parse("A: 01-01-2026, 02-01-2026\nB 01-01-2026").unwrap_err();
    assert_eq!(err.line, 2);
    assert!(err.message.contains("Missing colon"));
    let err = parse("A: 01-01-2026 02-01-2026").unwrap_err();
    assert!(err.message.contains("Missing delimiter"));
    let err = parse(" : 01-01-2026, 02-01-2026").unwrap_err();
    assert!(err.message.contains("Task name cannot be empty"));
    let err = parse("A: 05-01-2026, 02-01-2026").unwrap_err();
    assert!(err.message.contains("End date cannot be earlier than start date"));
    let err = parse("A: 05-01-2026, xd").unwrap_err();
    assert_eq!(err.message, "Invalid number in duration");
    let err = parse("A: 05-01-2026, 0d").unwrap_err();
    assert_eq!(err.message, "Duration must be positive");
    let err = parse("A: 05-01-2026, soon").unwrap_err();
    assert!(err.message.starts_with("Invalid end date 'soon'"));
}
