use chrono::{Datelike, NaiveDate};
use gram::gantt::date::Date;
use gram::gantt::layout::{date_to_x, layout, TaskLayout, TickLayout};
use gram::gantt::parser::{GanttChart, Task};

fn day(year: i32, month: u32, d: u32) -> Date {
    Date { day: NaiveDate::from_ymd_opt(year, month, d).unwrap().num_days_from_ce() }
}


#[test]
fn test_date_to_x() {
    let start_date = day(2026, 1, 1);
    let dates = vec![
        day(2026, 1, 2),
        day(2026, 1, 7),
        day(2026, 1, 10),
        day(2026, 1, 15),
        day(2026, 1, 16),
    ];
    // four columns per day
    let (pixels, per_days) = (4u64, 1u64);
    let expected_result = [4, 24, 36, 56, 60];

    for (index, date) in dates.iter().enumerate() {
        let x = date_to_x(date.clone(), start_date, pixels, per_days);
        assert_eq!(x, expected_result[index]);
    }
}

#[test]
fn test_layout() {
    let gantt_chart = GanttChart {
        tasks: vec![
            Task {
                start_date: day(2026, 1, 1),
                end_date: day(2026, 1, 5),
                name: "Design".to_string(),
            },
            Task {
                start_date: day(2026, 1, 5),
                end_date: day(2026, 1, 15),
                name: "Implementation".to_string(),
            },
            Task {
                start_date: day(2026, 1, 15),
                end_date: day(2026, 1, 20),
                name: "Testing".to_string(),
            },
            Task {
                start_date: day(2026, 1, 20),
                end_date: day(2026, 2, 3),
                name: "Bugfix".to_string(),
            },
            Task {
                start_date: day(2026, 2, 3),
                end_date: day(2026, 2, 6),
                name: "Release".to_string(),
            },
        ],
    };

    let gantt_layout = layout(&gantt_chart);

    assert_eq!(gantt_layout.task_layouts.len(), 5);
    // 120 columns over a minimum spacing of 12 give 10 ticks, as listed below
    assert_eq!(gantt_layout.tick_layouts.len(), 10);

    assert_eq!(
        gantt_layout.task_layouts,
        vec![
            TaskLayout {
                x_start: 6,
                x_end: 19,
                y: 2,
                name: "Design".to_string()
            },
            TaskLayout {
                x_start: 19,
                x_end: 52,
                y: 5,
                name: "Implementation".to_string()
            },
            TaskLayout {
                x_start: 52,
                x_end: 69,
                y: 8,
                name: "Testing".to_string()
            },
            TaskLayout {
                x_start: 69,
                x_end: 116,
                y: 11,
                name: "Bugfix".to_string()
            },
            TaskLayout {
                x_start: 116,
                x_end: 126,
                y: 14,
                name: "Release".to_string()
            },
        ]
    );

    assert_eq!(
        gantt_layout.tick_layouts,
        vec![
            TickLayout {
                x: 6,
                date: day(2026, 1, 1)
            },
            TickLayout {
                x: 19,
                date: day(2026, 1, 5)
            },
            TickLayout {
                x: 32,
                date: day(2026, 1, 9)
            },
            TickLayout {
                x: 45,
                date: day(2026, 1, 13)
            },
            TickLayout {
                x: 58,
                date: day(2026, 1, 17)
            },
            TickLayout {
                x: 71,
                date: day(2026, 1, 21)
            },
            TickLayout {
                x: 84,
                date: day(2026, 1, 25)
            },
            TickLayout {
                x: 97,
                date: day(2026, 1, 29)
            },
            TickLayout {
                x: 110,
                date: day(2026, 2, 2)
            },
            TickLayout {
                x: 123,
                date: day(2026, 2, 6)
            },
        ]
    )
}
