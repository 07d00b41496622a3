use vstd::prelude::*;
use crate::canvas::{blank, dot, hline, join_rows, lemma_paint_concat, paint, text, vline};
use crate::gantt::date::{FIRST_DAY, LAST_DAY, format_date, text_of_day};
use crate::gantt::layout::{
    CHART_WIDTH, GanttLayout, MARGIN_BOTTOM, MARGIN_TOP, TASK_HEIGHT, TaskLayout, TickLayout, chart_wf,
    day_column, max_end, min_start, span_days, task_placed, tick_count, tick_placed,
};
use crate::gantt::parser::GanttChart;
use crate::renderer::border_row;
use crate::text::{display_width, text_width};

pub use crate::canvas::Canvas;

verus! {

/// Row of the tick labels, just below the chart.
pub open spec fn label_row(height: int) -> int {
    height - MARGIN_BOTTOM + 1
}

/// A vertical rule through the chart, and the tick's date centered beneath it.
pub open spec fn tick_cmds(t: TickLayout, height: int) -> Seq<(int, int, char)> {
    let date = text_of_day(t.date.day as int);
    vline(t.x as int, MARGIN_TOP - 1, label_row(height), '|') + text(
        t.x - display_width(date) / 2,
        label_row(height),
        date,
    )
}

/// Column where a task's name starts: centered inside its box, or just past the
/// right border when it is wider than the box.
pub open spec fn task_name_start(t: TaskLayout) -> int {
    let inner = t.x_end - t.x_start - 1;
    let w = display_width(t.name@) as int;
    if w > inner {
        t.x_end + 1
    } else {
        t.x_start + (inner + 1) / 2 - (w - 1) / 2
    }
}

/// How many characters of the name fit before the canvas's right edge.
pub open spec fn task_name_shown(t: TaskLayout, width: int) -> int {
    let start = task_name_start(t);
    if start >= width {
        0
    } else if t.name@.len() <= width - start {
        t.name@.len() as int
    } else {
        width - start
    }
}

/// The task's box, with the axis rules inside it cleared and its name written in it.
pub open spec fn task_cmds(t: TaskLayout, width: int) -> Seq<(int, int, char)> {
    let xs = t.x_start as int;
    let xe = t.x_end as int;
    let y = t.y as int;
    border_row(xs, xe, y, '┌', '┐') + dot(xs, y + 1, '|') + hline(xs + 1, xe, y + 1, ' ') + text(
        task_name_start(t),
        y + 1,
        t.name@.take(task_name_shown(t, width)),
    ) + dot(xe, y + 1, '|') + border_row(xs, xe, y + 2, '└', '┘')
}

pub open spec fn all_tick_cmds(ts: Seq<TickLayout>, height: int) -> Seq<(int, int, char)>
    decreases ts.len(),
{
    if ts.len() == 0 {
        Seq::empty()
    } else {
        all_tick_cmds(ts.drop_last(), height) + tick_cmds(ts.last(), height)
    }
}

pub open spec fn all_task_cmds(ts: Seq<TaskLayout>, width: int) -> Seq<(int, int, char)>
    decreases ts.len(),
{
    if ts.len() == 0 {
        Seq::empty()
    } else {
        all_task_cmds(ts.drop_last(), width) + task_cmds(ts.last(), width)
    }
}

/// Ticks first, then the tasks over them.
pub open spec fn gantt_cmds(l: &GanttLayout) -> Seq<(int, int, char)> {
    all_tick_cmds(l.tick_layouts@, l.height as int) + all_task_cmds(l.task_layouts@, l.width as int)
}

pub open spec fn tick_drawable(t: TickLayout, width: int, height: int) -> bool {
    &&& FIRST_DAY <= t.date.day <= LAST_DAY
    &&& 5 <= t.x
    &&& t.x + 5 <= width
    &&& MARGIN_BOTTOM <= height
}

pub open spec fn task_drawable(t: TaskLayout, width: int, height: int) -> bool {
    &&& t.x_start < t.x_end < width
    &&& t.y + 2 < height
    &&& display_width(t.name@) >= 1
}

/// Every tick and task lies inside the layout's width and height.
pub open spec fn gantt_drawable(l: &GanttLayout) -> bool {
    &&& forall|i: int|
        0 <= i < l.tick_layouts@.len() ==> tick_drawable(
            #[trigger] l.tick_layouts@[i],
            l.width as int,
            l.height as int,
        )
    &&& forall|i: int|
        0 <= i < l.task_layouts@.len() ==> task_drawable(
            #[trigger] l.task_layouts@[i],
            l.width as int,
            l.height as int,
        )
}

/// Draws a Gantt chart's layout and returns it as text, rows joined by line feeds.
pub fn render(gantt_layout: &GanttLayout) -> (r: String)
    requires
        gantt_drawable(gantt_layout),
    ensures
        r@ == join_rows(
            paint(blank(gantt_layout.width as nat, gantt_layout.height as nat), gantt_cmds(gantt_layout)),
        ),
{
    let l = gantt_layout;
    let mut canvas = Canvas::new(l.width, l.height);
    let ghost g = canvas@;
    let mut i: usize = 0;
    assert(l.tick_layouts@.take(0) =~= Seq::<TickLayout>::empty());
    while i < l.tick_layouts.len()
        invariant
            gantt_drawable(l),
            i <= l.tick_layouts@.len(),
            canvas.wf(),
            canvas.spec_width() == l.width,
            canvas.spec_height() == l.height,
            g == blank(l.width as nat, l.height as nat),
            canvas@ == paint(g, all_tick_cmds(l.tick_layouts@.take(i as int), l.height as int)),
        decreases l.tick_layouts@.len() - i,
    {
        draw_tick(&l.tick_layouts[i], &mut canvas);
        proof {
            let ts = l.tick_layouts@;
            assert(ts.take(i + 1).drop_last() =~= ts.take(i as int));
            lemma_paint_concat(
                g,
                all_tick_cmds(ts.take(i as int), l.height as int),
                tick_cmds(ts[i as int], l.height as int),
            );
        }
        i = i + 1;
    }
    proof {
        assert(l.tick_layouts@.take(i as int) =~= l.tick_layouts@);
    }
    let ghost acc = all_tick_cmds(l.tick_layouts@, l.height as int);
    let mut i: usize = 0;
    assert(acc + all_task_cmds(l.task_layouts@.take(0), l.width as int) =~= acc);
    while i < l.task_layouts.len()
        invariant
            gantt_drawable(l),
            i <= l.task_layouts@.len(),
            canvas.wf(),
            canvas.spec_width() == l.width,
            canvas.spec_height() == l.height,
            g == blank(l.width as nat, l.height as nat),
            canvas@ == paint(g, acc + all_task_cmds(l.task_layouts@.take(i as int), l.width as int)),
        decreases l.task_layouts@.len() - i,
    {
        draw_task(&l.task_layouts[i], &mut canvas);
        proof {
            let ts = l.task_layouts@;
            assert(ts.take(i + 1).drop_last() =~= ts.take(i as int));
            let a = all_task_cmds(ts.take(i as int), l.width as int);
            lemma_paint_concat(g, acc + a, task_cmds(ts[i as int], l.width as int));
            assert(acc + a + task_cmds(ts[i as int], l.width as int) =~= acc + all_task_cmds(
                ts.take(i + 1),
                l.width as int,
            ));
        }
        i = i + 1;
    }
    proof {
        assert(l.task_layouts@.take(i as int) =~= l.task_layouts@);
    }
    canvas.to_string()
}

fn draw_task(task_layout: &TaskLayout, canvas: &mut Canvas)
    requires
        old(canvas).wf(),
        task_drawable(*task_layout, old(canvas).spec_width() as int, old(canvas).spec_height() as int),
    ensures
        final(canvas).wf(),
        final(canvas).spec_width() == old(canvas).spec_width(),
        final(canvas).spec_height() == old(canvas).spec_height(),
        final(canvas)@ == paint(old(canvas)@, task_cmds(*task_layout, old(canvas).spec_width() as int)),
{
    let t = task_layout;
    let x_start = t.x_start;
    let x_end = t.x_end;
    let y = t.y;
    let name = &t.name;
    let box_internal_width = x_end - x_start - 1;
    let ghost g = canvas@;
    let ghost w = canvas.spec_width() as int;

    // Top border
    canvas.put(x_start, y, '┌');
    canvas.draw_hline(x_start + 1, x_end, y, '─');
    canvas.put(x_end, y, '┐');
    let ghost a1 = dot(x_start as int, y as int, '┌');
    let ghost a2 = hline(x_start + 1, x_end as int, y as int, '─');
    let ghost a3 = dot(x_end as int, y as int, '┐');
    proof {
        lemma_paint_concat(g, a1, a2);
        lemma_paint_concat(g, a1 + a2, a3);
    }
    let ghost acc = a1 + a2 + a3;

    // Middle line, with the tick rules inside the box cleared
    canvas.put(x_start, y + 1, '|');
    canvas.draw_hline(x_start + 1, x_end, y + 1, ' ');
    let ghost b1 = dot(x_start as int, y + 1, '|');
    let ghost b2 = hline(x_start + 1, x_end as int, y + 1, ' ');
    proof {
        lemma_paint_concat(g, acc, b1);
        lemma_paint_concat(g, acc + b1, b2);
    }
    let ghost acc = acc + b1 + b2;

    let name_width = text_width(name.as_str());
    let name_start_x = if name_width > box_internal_width {
        x_end + 1
    } else {
        x_start + (box_internal_width + 1) / 2 - (name_width - 1) / 2
    };
    let canvas_width = canvas.width();
    let n = name.as_str().unicode_len();
    let shown: usize = if name_start_x >= canvas_width {
        0
    } else if n <= canvas_width - name_start_x {
        n
    } else {
        canvas_width - name_start_x
    };
    let visible = name.as_str().substring_char(0, shown);
    assert(visible@ =~= t.name@.take(task_name_shown(*t, w)));
    canvas.draw_text(name_start_x, y + 1, visible);
    canvas.put(x_end, y + 1, '|');
    let ghost b3 = text(task_name_start(*t), y + 1, t.name@.take(task_name_shown(*t, w)));
    let ghost b4 = dot(x_end as int, y + 1, '|');
    proof {
        lemma_paint_concat(g, acc, b3);
        lemma_paint_concat(g, acc + b3, b4);
    }
    let ghost acc = acc + b3 + b4;

    // Bottom border
    canvas.put(x_start, y + 2, '└');
    canvas.draw_hline(x_start + 1, x_end, y + 2, '─');
    canvas.put(x_end, y + 2, '┘');
    let ghost c1 = dot(x_start as int, y + 2, '└');
    let ghost c2 = hline(x_start + 1, x_end as int, y + 2, '─');
    let ghost c3 = dot(x_end as int, y + 2, '┘');
    proof {
        lemma_paint_concat(g, acc, c1);
        lemma_paint_concat(g, acc + c1, c2);
        lemma_paint_concat(g, acc + c1 + c2, c3);
        assert(acc + c1 + c2 + c3 =~= task_cmds(*t, w));
    }
}

fn draw_tick(tick_layout: &TickLayout, canvas: &mut Canvas)
    requires
        old(canvas).wf(),
        tick_drawable(*tick_layout, old(canvas).spec_width() as int, old(canvas).spec_height() as int),
    ensures
        final(canvas).wf(),
        final(canvas).spec_width() == old(canvas).spec_width(),
        final(canvas).spec_height() == old(canvas).spec_height(),
        final(canvas)@ == paint(old(canvas)@, tick_cmds(*tick_layout, old(canvas).spec_height() as int)),
{
    let t = tick_layout;
    let ghost g = canvas@;
    let height = canvas.height();
    canvas.draw_vline(t.x, MARGIN_TOP - 1, height - MARGIN_BOTTOM + 1, '|');
    let date = format_date(t.date);
    let date_start_x = t.x - text_width(date.as_str()) / 2;
    canvas.draw_text(date_start_x, height - MARGIN_BOTTOM + 1, date.as_str());
    proof {
        lemma_paint_concat(
            g,
            vline(t.x as int, MARGIN_TOP - 1, label_row(height as int), '|'),
            text(date_start_x as int, label_row(height as int), date@),
        );
    }
}

/// The layout computed for a chart can be drawn when its dates lie within years
/// 1 to 9999, every task's bar is at least one column long, and every name is at
/// least one column wide.
pub proof fn lemma_gantt_layout_drawable(chart: &GanttChart, l: &GanttLayout)
    requires
        chart_wf(chart),
        FIRST_DAY <= min_start(chart.tasks@),
        max_end(chart.tasks@) <= LAST_DAY,
        forall|i: int|
            0 <= i < chart.tasks@.len() ==> day_column(
                (#[trigger] chart.tasks@[i]).start_date.day as int,
                min_start(chart.tasks@),
                span_days(chart.tasks@),
            ) < day_column(chart.tasks@[i].end_date.day as int, min_start(chart.tasks@), span_days(chart.tasks@)),
        forall|i: int| 0 <= i < chart.tasks@.len() ==> display_width((#[trigger] chart.tasks@[i]).name@) >= 1,
        l.width == CHART_WIDTH + crate::gantt::layout::MARGIN_LEFT + crate::gantt::layout::MARGIN_RIGHT,
        l.height == TASK_HEIGHT * chart.tasks@.len() + MARGIN_TOP + MARGIN_BOTTOM,
        l.task_layouts@.len() == chart.tasks@.len(),
        forall|i: int| 0 <= i < l.task_layouts@.len() ==> task_placed(chart.tasks@, i, #[trigger] l.task_layouts@[i]),
        l.tick_layouts@.len() == tick_count(),
        forall|i: int| 0 <= i < l.tick_layouts@.len() ==> tick_placed(chart.tasks@, i, #[trigger] l.tick_layouts@[i]),
    ensures
        gantt_drawable(l),
{
    let tasks = chart.tasks@;
    let total = max_end(tasks) - min_start(tasks);
    crate::gantt::layout::lemma_task_bars_ordered(chart);
    assert(tick_count() == 10);
    assert((CHART_WIDTH as int) / 9 == 13) by (nonlinear_arith);
    assert forall|i: int| 0 <= i < l.tick_layouts@.len() implies tick_drawable(
        #[trigger] l.tick_layouts@[i],
        l.width as int,
        l.height as int,
    ) by {
        assert(tick_placed(tasks, i, l.tick_layouts@[i]));
        crate::gantt::layout::lemma_chart_range(chart);
        assert(0 <= i * (total / 9) <= total) by (nonlinear_arith)
            requires
                0 <= i <= 9,
                total >= 0,
        ;
    }
    assert forall|i: int| 0 <= i < l.task_layouts@.len() implies task_drawable(
        #[trigger] l.task_layouts@[i],
        l.width as int,
        l.height as int,
    ) by {
        let t = l.task_layouts@[i];
        assert(task_placed(tasks, i, t));
        crate::gantt::layout::lemma_chart_range(chart);
        crate::gantt::layout::lemma_task_columns(chart, i);
    }
}

} // verus!
