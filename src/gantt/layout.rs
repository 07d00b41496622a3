use vstd::prelude::*;
use vstd::arithmetic::div_mod::{lemma_div_is_ordered, lemma_div_by_self};
use vstd::arithmetic::mul::lemma_mul_inequality;
use num_rational::Ratio;
use crate::gantt::date::Date;
use crate::gantt::parser::{GanttChart, Task};

verus! {

#[derive(Debug, PartialEq)]
pub struct TaskLayout {
    pub x_start: usize,
    pub x_end: usize,
    pub y: usize,
    pub name: String,
}

#[derive(Debug, PartialEq)]
pub struct TickLayout {
    pub x: usize,
    pub date: Date,
}

#[derive(Debug)]
pub struct GanttLayout {
    pub task_layouts: Vec<TaskLayout>,
    pub tick_layouts: Vec<TickLayout>,
    pub width: usize,
    pub height: usize,
}

pub const MARGIN_LEFT: usize = 6;
pub const MARGIN_RIGHT: usize = 6;
pub const MARGIN_TOP: usize = 2;
pub const MARGIN_BOTTOM: usize = 3;

pub const CHART_WIDTH: usize = 120;
pub const TASK_HEIGHT: usize = 3;
pub const MIN_TICK_SPACING: usize = 12;

/// Number of axis ticks: the chart width over the minimum spacing, at least 2.
pub open spec fn tick_count() -> int {
    if CHART_WIDTH / MIN_TICK_SPACING >= 2 { (CHART_WIDTH / MIN_TICK_SPACING) as int } else { 2 }
}

/// Earliest start among the tasks.
pub open spec fn min_start(tasks: Seq<Task>) -> int
    decreases tasks.len(),
{
    if tasks.len() == 0 {
        i32::MAX as int
    } else {
        let rest = min_start(tasks.drop_last());
        let here = tasks.last().start_date.day as int;
        if here < rest { here } else { rest }
    }
}

/// Latest end among the tasks.
pub open spec fn max_end(tasks: Seq<Task>) -> int
    decreases tasks.len(),
{
    if tasks.len() == 0 {
        i32::MIN as int
    } else {
        let rest = max_end(tasks.drop_last());
        let here = tasks.last().end_date.day as int;
        if here > rest { here } else { rest }
    }
}

/// Days that the chart spans, counted as 1 when all tasks fall on a single day.
pub open spec fn span_days(tasks: Seq<Task>) -> int {
    if max_end(tasks) - min_start(tasks) > 0 { max_end(tasks) - min_start(tasks) } else { 1 }
}

/// Column of the day `day` on a chart that starts on `min` and spans `span` days:
/// the exact fraction of the chart width, truncated.
pub open spec fn day_column(day: int, min: int, span: int) -> int {
    (day - min) * CHART_WIDTH / span
}

/// A non-empty chart whose tasks each end no earlier than they start.
pub open spec fn chart_wf(chart: &GanttChart) -> bool {
    &&& chart.tasks@.len() > 0
    &&& forall|i: int|
        0 <= i < chart.tasks@.len() ==> (#[trigger] chart.tasks@[i]).start_date.day
            <= chart.tasks@[i].end_date.day
    &&& TASK_HEIGHT * chart.tasks@.len() + MARGIN_TOP + MARGIN_BOTTOM <= usize::MAX
}

/// Where task `i` of `tasks` is drawn.
pub open spec fn task_placed(tasks: Seq<Task>, i: int, t: TaskLayout) -> bool {
    let min = min_start(tasks);
    let span = span_days(tasks);
    &&& t.x_start == MARGIN_LEFT + day_column(tasks[i].start_date.day as int, min, span)
    &&& t.x_end == MARGIN_LEFT + day_column(tasks[i].end_date.day as int, min, span)
    &&& t.y == MARGIN_TOP + TASK_HEIGHT * i
    &&& t.name@ == tasks[i].name@
}

/// Tick `i`: evenly spaced in columns and, separately, in days.
pub open spec fn tick_placed(tasks: Seq<Task>, i: int, t: TickLayout) -> bool {
    let total = max_end(tasks) - min_start(tasks);
    &&& t.x == MARGIN_LEFT + i * ((CHART_WIDTH as int) / (tick_count() - 1))
    &&& t.date.day == min_start(tasks) + i * (total / (tick_count() - 1))
}

proof fn lemma_range(tasks: Seq<Task>)
    requires
        tasks.len() > 0,
        forall|i: int| 0 <= i < tasks.len() ==> (#[trigger] tasks[i]).start_date.day <= tasks[i].end_date.day,
    ensures
        forall|i: int| 0 <= i < tasks.len() ==> min_start(tasks) <= (#[trigger] tasks[i]).start_date.day,
        forall|i: int| 0 <= i < tasks.len() ==> (#[trigger] tasks[i]).end_date.day <= max_end(tasks),
        exists|i: int| 0 <= i < tasks.len() && min_start(tasks) == (#[trigger] tasks[i]).start_date.day,
        exists|i: int| 0 <= i < tasks.len() && max_end(tasks) == (#[trigger] tasks[i]).end_date.day,
        i32::MIN <= min_start(tasks) <= max_end(tasks) <= i32::MAX,
    decreases tasks.len(),
{
    let p = tasks.drop_last();
    let n = tasks.len() - 1;
    assert forall|i: int| 0 <= i < p.len() implies p[i] == tasks[i] by {}
    if p.len() > 0 {
        lemma_range(p);
        let a = choose|i: int| 0 <= i < p.len() && min_start(p) == (#[trigger] p[i]).start_date.day;
        let b = choose|i: int| 0 <= i < p.len() && max_end(p) == (#[trigger] p[i]).end_date.day;
        if min_start(tasks) == tasks[n].start_date.day {
            assert(min_start(tasks) == tasks[n].start_date.day);
        } else {
            assert(min_start(tasks) == tasks[a].start_date.day);
        }
        if max_end(tasks) == tasks[n].end_date.day {
            assert(max_end(tasks) == tasks[n].end_date.day);
        } else {
            assert(max_end(tasks) == tasks[b].end_date.day);
        }
    } else {
        assert(min_start(tasks) == tasks[0].start_date.day);
        assert(max_end(tasks) == tasks[0].end_date.day);
    }
}

/// Relies on num-rational's `Ratio<u64>`: `from_integer`, `new` (which needs a
/// non-zero denominator), the product of two ratios, computed over reduced terms so
/// that it stays within the whole product `days * pixels`, and `to_integer`, which
/// truncates.
#[verifier::external_body]
fn scale_days(days: u64, pixels: u64, per_days: u64) -> (r: u64)
    requires
        per_days > 0,
        (days as int) * (pixels as int) <= u64::MAX,
    ensures
        r == (days as int) * (pixels as int) / (per_days as int),
{
    (Ratio::from_integer(days) * Ratio::new(pixels, per_days)).to_integer()
}

/// Column offset of `date` on a chart starting on `min_date`, at `pixels` columns
/// per `per_days` days, truncated.
pub fn date_to_x(date: Date, min_date: Date, pixels: u64, per_days: u64) -> (r: usize)
    requires
        per_days > 0,
        min_date.day <= date.day,
        (date.day - min_date.day) * (pixels as int) <= u64::MAX,
        (date.day - min_date.day) * (pixels as int) / (per_days as int) <= usize::MAX,
    ensures
        r == (date.day - min_date.day) * (pixels as int) / (per_days as int),
{
    let days = (date.day as i64 - min_date.day as i64) as u64;
    scale_days(days, pixels, per_days) as usize
}

fn find_date_range(chart: &GanttChart) -> (r: (Date, Date))
    requires
        chart.tasks@.len() > 0,
    ensures
        r.0.day == min_start(chart.tasks@),
        r.1.day == max_end(chart.tasks@),
{
    let tasks = &chart.tasks;
    let mut min_date = Date { day: i32::MAX };
    let mut max_date = Date { day: i32::MIN };
    let mut i: usize = 0;
    while i < tasks.len()
        invariant
            i <= tasks@.len(),
            min_date.day == min_start(tasks@.take(i as int)),
            max_date.day == max_end(tasks@.take(i as int)),
        decreases tasks@.len() - i,
    {
        assert(tasks@.take(i + 1).drop_last() =~= tasks@.take(i as int));
        let task = &tasks[i];
        if task.start_date.day < min_date.day {
            min_date = task.start_date;
        }
        if task.end_date.day > max_date.day {
            max_date = task.end_date;
        }
        i = i + 1;
    }
    assert(tasks@.take(i as int) =~= tasks@);
    (min_date, max_date)
}

proof fn lemma_column_bounds(day: int, min: int, max: int, span: int)
    requires
        min <= day <= max,
        span == (if max - min > 0 { max - min } else { 1 }),
    ensures
        0 <= day_column(day, min, span) <= CHART_WIDTH,
{
    lemma_mul_inequality(day - min, span, CHART_WIDTH as int);
    lemma_mul_inequality(0, day - min, CHART_WIDTH as int);
    lemma_div_is_ordered(0, (day - min) * CHART_WIDTH, span);
    lemma_div_is_ordered((day - min) * CHART_WIDTH, span * CHART_WIDTH, span);
    vstd::arithmetic::div_mod::lemma_div_multiples_vanish(CHART_WIDTH as int, span);
    assert(span * CHART_WIDTH == CHART_WIDTH * span) by (nonlinear_arith);
}

fn layout_tasks(gantt_chart: &GanttChart, min_date: Date, span: u64) -> (r: Vec<TaskLayout>)
    requires
        chart_wf(gantt_chart),
        min_date.day == min_start(gantt_chart.tasks@),
        span == span_days(gantt_chart.tasks@),
    ensures
        r@.len() == gantt_chart.tasks@.len(),
        forall|i: int| 0 <= i < r@.len() ==> task_placed(gantt_chart.tasks@, i, #[trigger] r@[i]),
{
    let tasks = &gantt_chart.tasks;
    proof {
        lemma_range(tasks@);
    }
    let mut task_layouts: Vec<TaskLayout> = Vec::new();
    let mut y: usize = MARGIN_TOP;
    let mut i: usize = 0;
    while i < tasks.len()
        invariant
            chart_wf(gantt_chart),
            tasks == gantt_chart.tasks,
            i <= tasks@.len(),
            min_date.day == min_start(tasks@),
            span == span_days(tasks@),
            forall|j: int| 0 <= j < tasks@.len() ==> min_start(tasks@) <= (#[trigger] tasks@[j]).start_date.day,
            forall|j: int| 0 <= j < tasks@.len() ==> (#[trigger] tasks@[j]).end_date.day <= max_end(tasks@),
            i32::MIN <= min_start(tasks@) <= max_end(tasks@) <= i32::MAX,
            y == MARGIN_TOP + TASK_HEIGHT * i,
            task_layouts@.len() == i,
            forall|j: int| 0 <= j < i ==> task_placed(tasks@, j, #[trigger] task_layouts@[j]),
        decreases tasks@.len() - i,
    {
        assert(TASK_HEIGHT * (i + 1) + MARGIN_TOP <= usize::MAX);
        let task = &tasks[i];
        let ghost min = min_start(tasks@);
        let ghost max = max_end(tasks@);
        proof {
            assert(chart_wf(gantt_chart) ==> task.start_date.day <= task.end_date.day);
            lemma_column_bounds(task.start_date.day as int, min, max, span as int);
            lemma_column_bounds(task.end_date.day as int, min, max, span as int);
            lemma_mul_inequality(task.end_date.day - min, max - min, CHART_WIDTH as int);
            lemma_mul_inequality(task.start_date.day - min, max - min, CHART_WIDTH as int);
            assert((max - min) * CHART_WIDTH <= 0x1_0000_0000 * 120) by (nonlinear_arith)
                requires
                    0 <= max - min <= 0x1_0000_0000,
            ;
        }
        let x_start = date_to_x(task.start_date, min_date, CHART_WIDTH as u64, span) + MARGIN_LEFT;
        let x_end = date_to_x(task.end_date, min_date, CHART_WIDTH as u64, span) + MARGIN_LEFT;
        task_layouts.push(TaskLayout { x_start, x_end, y, name: task.name.clone() });
        y = y + TASK_HEIGHT;
        i = i + 1;
    }
    task_layouts
}

fn layout_ticks(min_date: Date, total_days: u64) -> (r: Vec<TickLayout>)
    requires
        min_date.day + total_days <= i32::MAX,
    ensures
        r@.len() == tick_count(),
        forall|i: int|
            0 <= i < r@.len() ==> {
                let t = #[trigger] r@[i];
                &&& t.x == MARGIN_LEFT + i * ((CHART_WIDTH as int) / (tick_count() - 1))
                &&& t.date.day == min_date.day + i * ((total_days as int) / (tick_count() - 1))
            },
{
    let ticks_count: usize = if CHART_WIDTH / MIN_TICK_SPACING >= 2 {
        CHART_WIDTH / MIN_TICK_SPACING
    } else {
        2
    };
    let mut ticks_layout: Vec<TickLayout> = Vec::new();
    let days_per_tick = total_days / (ticks_count - 1) as u64;
    let pixels_per_tick = CHART_WIDTH / (ticks_count - 1);
    let mut i: usize = 0;
    while i < ticks_count
        invariant
            ticks_count == tick_count(),
            days_per_tick == (total_days as int) / (tick_count() - 1),
            pixels_per_tick == (CHART_WIDTH as int) / (tick_count() - 1),
            min_date.day + total_days <= i32::MAX,
            i <= ticks_count,
            ticks_layout@.len() == i,
            forall|j: int|
                0 <= j < i ==> {
                    let t = #[trigger] ticks_layout@[j];
                    &&& t.x == MARGIN_LEFT + j * ((CHART_WIDTH as int) / (tick_count() - 1))
                    &&& t.date.day == min_date.day + j * ((total_days as int) / (tick_count() - 1))
                },
        decreases ticks_count - i,
    {
        proof {
            assert(tick_count() == 10);
            assert((CHART_WIDTH as int) / 9 == 13) by (nonlinear_arith);
            assert(i * days_per_tick <= total_days) by (nonlinear_arith)
                requires
                    i <= 9,
                    days_per_tick == total_days / 9,
            ;
        }
        let offset = (i as u64) * days_per_tick;
        ticks_layout.push(
            TickLayout {
                x: i * pixels_per_tick + MARGIN_LEFT,
                date: Date { day: (min_date.day as i64 + offset as i64) as i32 },
            },
        );
        i = i + 1;
    }
    ticks_layout
}

/// Lays out a Gantt chart: each task's bar spans the columns of its start and end
/// dates on one shared scale, tasks stack one below the other in order, and the
/// axis gets evenly spaced ticks.
pub fn layout(gantt_chart: &GanttChart) -> (r: GanttLayout)
    requires
        chart_wf(gantt_chart),
    ensures
        r.width == CHART_WIDTH + MARGIN_LEFT + MARGIN_RIGHT,
        r.height == TASK_HEIGHT * gantt_chart.tasks@.len() + MARGIN_TOP + MARGIN_BOTTOM,
        r.task_layouts@.len() == gantt_chart.tasks@.len(),
        forall|i: int|
            0 <= i < r.task_layouts@.len() ==> task_placed(
                gantt_chart.tasks@,
                i,
                #[trigger] r.task_layouts@[i],
            ),
        r.tick_layouts@.len() == tick_count(),
        forall|i: int|
            0 <= i < r.tick_layouts@.len() ==> tick_placed(
                gantt_chart.tasks@,
                i,
                #[trigger] r.tick_layouts@[i],
            ),
{
    proof {
        lemma_range(gantt_chart.tasks@);
    }
    let (min_date, max_date) = find_date_range(gantt_chart);
    let total_days = (max_date.day as i64 - min_date.day as i64) as u64;
    // a chart within a single day still spans one day
    let span: u64 = if total_days > 0 {
        total_days
    } else {
        1
    };
    let task_layouts = layout_tasks(gantt_chart, min_date, span);
    let tick_layouts = layout_ticks(min_date, total_days);
    let height = TASK_HEIGHT * gantt_chart.tasks.len() + MARGIN_TOP + MARGIN_BOTTOM;
    let width = CHART_WIDTH + MARGIN_LEFT + MARGIN_RIGHT;
    GanttLayout { task_layouts, tick_layouts, width, height }
}

/// Every task's bar starts no later than it ends, and each task sits exactly one
/// task height below the task before it.
pub proof fn lemma_task_bars_ordered(chart: &GanttChart)
    requires
        chart_wf(chart),
    ensures
        forall|i: int, t: TaskLayout|
            0 <= i < chart.tasks@.len() && #[trigger] task_placed(chart.tasks@, i, t) ==> t.x_start
                <= t.x_end,
        forall|i: int, t: TaskLayout, u: TaskLayout|
            0 <= i && i + 1 < chart.tasks@.len() && #[trigger] task_placed(chart.tasks@, i, t)
                && #[trigger] task_placed(chart.tasks@, i + 1, u) ==> u.y == t.y + TASK_HEIGHT,
{
    let tasks = chart.tasks@;
    lemma_range(tasks);
    assert forall|i: int, t: TaskLayout|
        0 <= i < tasks.len() && #[trigger] task_placed(tasks, i, t) implies t.x_start <= t.x_end by {
        let min = min_start(tasks);
        let s = tasks[i].start_date.day as int;
        let e = tasks[i].end_date.day as int;
        assert(s <= e);
        lemma_mul_inequality(s - min, e - min, CHART_WIDTH as int);
        lemma_div_is_ordered((s - min) * CHART_WIDTH, (e - min) * CHART_WIDTH, span_days(tasks));
    }
}

/// The earliest start date maps to the left margin; when the chart spans at least
/// one day, the latest end date maps to the left margin plus the chart width.
pub proof fn lemma_date_columns_exact(chart: &GanttChart)
    requires
        chart_wf(chart),
    ensures
        MARGIN_LEFT + day_column(min_start(chart.tasks@), min_start(chart.tasks@), span_days(chart.tasks@))
            == MARGIN_LEFT,
        max_end(chart.tasks@) > min_start(chart.tasks@) ==> MARGIN_LEFT + day_column(
            max_end(chart.tasks@),
            min_start(chart.tasks@),
            span_days(chart.tasks@),
        ) == MARGIN_LEFT + CHART_WIDTH,
{
    let tasks = chart.tasks@;
    let span = span_days(tasks);
    let total = max_end(tasks) - min_start(tasks);
    assert(0 * (CHART_WIDTH as int) == 0);
    if total > 0 {
        vstd::arithmetic::div_mod::lemma_div_multiples_vanish(CHART_WIDTH as int, total);
        assert(total * CHART_WIDTH == CHART_WIDTH * total) by (nonlinear_arith);
    }
}

/// The chart's first day is no later than its last.
pub proof fn lemma_chart_range(chart: &GanttChart)
    requires
        chart_wf(chart),
    ensures
        min_start(chart.tasks@) <= max_end(chart.tasks@),
{
    lemma_range(chart.tasks@);
}

/// Both ends of task `i`'s bar lie within the chart width.
pub proof fn lemma_task_columns(chart: &GanttChart, i: int)
    requires
        chart_wf(chart),
        0 <= i < chart.tasks@.len(),
    ensures
        0 <= day_column(
            chart.tasks@[i].start_date.day as int,
            min_start(chart.tasks@),
            span_days(chart.tasks@),
        ) <= CHART_WIDTH,
        0 <= day_column(
            chart.tasks@[i].end_date.day as int,
            min_start(chart.tasks@),
            span_days(chart.tasks@),
        ) <= CHART_WIDTH,
{
    let tasks = chart.tasks@;
    lemma_range(tasks);
    assert(tasks[i].start_date.day <= tasks[i].end_date.day);
    lemma_column_bounds(tasks[i].start_date.day as int, min_start(tasks), max_end(tasks), span_days(tasks));
    lemma_column_bounds(tasks[i].end_date.day as int, min_start(tasks), max_end(tasks), span_days(tasks));
}

} // verus!
