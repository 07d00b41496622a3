use vstd::prelude::*;
use crate::canvas::{blank, dot, hline, join_rows, lemma_paint_concat, paint, text, vline};
use crate::layout::{
    ArrowDirection, EdgeLayout, LifelineLayout, PARTICIPANT_HEIGHT, ParticipantLayout,
    SequenceDiagram, SequenceDiagramLayout, center, edge_high, edge_low, edges_known, first_index,
    fits_usize, gap, is_layout_of, label_start, lemma_center_mono, lemma_first_index,
    lemma_sequence_layout_separates, name_width, names,
};
use crate::text::{display_width, text_width};

pub use crate::canvas::Canvas;

verus! {

/// One row of a box border: corner, fill, corner.
pub open spec fn border_row(left: int, right: int, y: int, l: char, r: char) -> Seq<(int, int, char)> {
    dot(left, y, l) + hline(left + 1, right, y, '─') + dot(right, y, r)
}

/// Column where a name of display width `w` starts when centered on `center`.
pub open spec fn name_start(center: int, w: int) -> int {
    center - (w - 1) / 2
}

/// A three-row participant box with its name, and the joint where the lifeline meets it.
pub open spec fn box_cmds(
    center: int,
    left: int,
    right: int,
    y: int,
    name: Seq<char>,
    is_top_box: bool,
) -> Seq<(int, int, char)> {
    let w = display_width(name) as int;
    border_row(left, right, y, '┌', '┐') + (dot(left, y + 1, '│') + text(
        name_start(center, w),
        y + 1,
        name,
    ) + dot(right, y + 1, '│')) + border_row(left, right, y + 2, '└', '┘') + if is_top_box {
        dot(center, y + 2, '┬')
    } else {
        dot(center, y, '┴')
    }
}

pub open spec fn participant_left(p: ParticipantLayout) -> int {
    p.center_x + 1 - (p.width + 1) / 2
}

pub open spec fn participant_right(p: ParticipantLayout) -> int {
    participant_left(p) + p.width - 1
}

/// The top box, then the bottom box, of a participant.
pub open spec fn participant_cmds(p: ParticipantLayout) -> Seq<(int, int, char)> {
    box_cmds(
        p.center_x as int,
        participant_left(p),
        participant_right(p),
        p.top_box_y as int,
        p.name@,
        true,
    ) + box_cmds(
        p.center_x as int,
        participant_left(p),
        participant_right(p),
        p.bottom_box_y - PARTICIPANT_HEIGHT,
        p.name@,
        false,
    )
}

pub open spec fn lifeline_cmds(l: LifelineLayout) -> Seq<(int, int, char)> {
    vline(l.x as int, l.start_y as int, l.end_y + 1, '│')
}

/// Row of an edge's arrow: below its label if it has one.
pub open spec fn arrow_row(e: EdgeLayout) -> int {
    if e.message is Some { e.y + 1 } else { e.y as int }
}

/// The arrow shaft, the arrowhead at the target's end, and the centered label.
pub open spec fn edge_cmds(e: EdgeLayout) -> Seq<(int, int, char)> {
    let (head_x, head) = match e.direction {
        ArrowDirection::Right => (edge_high(e), '>'),
        ArrowDirection::Left => (edge_low(e), '<'),
    };
    hline(edge_low(e), edge_high(e) + 1, arrow_row(e), '─') + dot(head_x, arrow_row(e), head) + match e.message {
        Some(m) => text(label_start(e, display_width(m@) as int), e.y as int, m@),
        None => Seq::empty(),
    }
}

pub open spec fn all_participant_cmds(ps: Seq<ParticipantLayout>) -> Seq<(int, int, char)>
    decreases ps.len(),
{
    if ps.len() == 0 {
        Seq::empty()
    } else {
        all_participant_cmds(ps.drop_last()) + participant_cmds(ps.last())
    }
}

pub open spec fn all_lifeline_cmds(ls: Seq<LifelineLayout>) -> Seq<(int, int, char)>
    decreases ls.len(),
{
    if ls.len() == 0 {
        Seq::empty()
    } else {
        all_lifeline_cmds(ls.drop_last()) + lifeline_cmds(ls.last())
    }
}

pub open spec fn all_edge_cmds(es: Seq<EdgeLayout>) -> Seq<(int, int, char)>
    decreases es.len(),
{
    if es.len() == 0 {
        Seq::empty()
    } else {
        all_edge_cmds(es.drop_last()) + edge_cmds(es.last())
    }
}

/// Boxes first, then lifelines, then edges, so that arrows cross the lifelines.
pub open spec fn render_cmds(l: &SequenceDiagramLayout) -> Seq<(int, int, char)> {
    all_participant_cmds(l.participant_layouts@) + all_lifeline_cmds(l.lifeline_layouts@)
        + all_edge_cmds(l.edge_layouts@)
}

/// Both boxes of the participant, and its name, lie inside a `w` by `h` canvas.
pub open spec fn participant_drawable(p: ParticipantLayout, w: int, h: int) -> bool {
    let nw = display_width(p.name@) as int;
    &&& p.width >= 1
    &&& (p.width + 1) / 2 <= p.center_x + 1
    &&& participant_right(p) < w
    &&& p.center_x < w
    &&& p.top_box_y + 2 < h
    &&& PARTICIPANT_HEIGHT <= p.bottom_box_y < h + 1
    &&& nw >= 1
    &&& (nw - 1) / 2 <= p.center_x
    &&& name_start(p.center_x as int, nw) + p.name@.len() <= w
}

pub open spec fn lifeline_drawable(l: LifelineLayout, w: int, h: int) -> bool {
    l.start_y <= l.end_y ==> l.x < w && l.end_y < h
}

pub open spec fn edge_drawable(e: EdgeLayout, w: int, h: int) -> bool {
    &&& edge_low(e) < w
    &&& edge_high(e) < w
    &&& arrow_row(e) < h
    &&& match e.message {
        Some(m) => {
            let start = label_start(e, display_width(m@) as int);
            0 <= start && start + m@.len() <= w
        },
        None => true,
    }
}

/// Everything the layout asks to draw lies inside its own width and height.
pub open spec fn drawable(l: &SequenceDiagramLayout) -> bool {
    let w = l.width as int;
    let h = l.height as int;
    &&& forall|i: int|
        0 <= i < l.participant_layouts@.len() ==> participant_drawable(
            #[trigger] l.participant_layouts@[i],
            w,
            h,
        )
    &&& forall|i: int|
        0 <= i < l.lifeline_layouts@.len() ==> lifeline_drawable(
            #[trigger] l.lifeline_layouts@[i],
            w,
            h,
        )
    &&& forall|i: int|
        0 <= i < l.edge_layouts@.len() ==> edge_drawable(#[trigger] l.edge_layouts@[i], w, h)
}

/// Draws a sequence diagram's layout and returns it as text, rows joined by line feeds.
pub fn render(seq_diagram_layout: &SequenceDiagramLayout) -> (r: String)
    requires
        drawable(seq_diagram_layout),
    ensures
        r@ == join_rows(
            paint(
                blank(seq_diagram_layout.width as nat, seq_diagram_layout.height as nat),
                render_cmds(seq_diagram_layout),
            ),
        ),
{
    let l = seq_diagram_layout;
    let mut canvas = Canvas::new(l.width, l.height);
    let ghost g = canvas@;
    let mut i: usize = 0;
    while i < l.participant_layouts.len()
        invariant
            drawable(l),
            i <= l.participant_layouts@.len(),
            canvas.wf(),
            canvas.spec_width() == l.width,
            canvas.spec_height() == l.height,
            g == blank(l.width as nat, l.height as nat),
            canvas@ == paint(g, all_participant_cmds(l.participant_layouts@.take(i as int))),
        decreases l.participant_layouts@.len() - i,
    {
        let ghost before = canvas@;
        draw_participant_boxes(&mut canvas, &l.participant_layouts[i]);
        proof {
            let ps = l.participant_layouts@;
            assert(ps.take(i + 1).drop_last() =~= ps.take(i as int));
            lemma_paint_concat(g, all_participant_cmds(ps.take(i as int)), participant_cmds(ps[i as int]));
        }
        i = i + 1;
    }
    proof {
        assert(l.participant_layouts@.take(i as int) =~= l.participant_layouts@);
    }
    let ghost acc = all_participant_cmds(l.participant_layouts@);
    let mut i: usize = 0;
    while i < l.lifeline_layouts.len()
        invariant
            drawable(l),
            i <= l.lifeline_layouts@.len(),
            canvas.wf(),
            canvas.spec_width() == l.width,
            canvas.spec_height() == l.height,
            g == blank(l.width as nat, l.height as nat),
            canvas@ == paint(g, acc + all_lifeline_cmds(l.lifeline_layouts@.take(i as int))),
        decreases l.lifeline_layouts@.len() - i,
    {
        draw_lifeline(&mut canvas, &l.lifeline_layouts[i]);
        proof {
            let ls = l.lifeline_layouts@;
            assert(ls.take(i + 1).drop_last() =~= ls.take(i as int));
            let a = all_lifeline_cmds(ls.take(i as int));
            lemma_paint_concat(g, acc + a, lifeline_cmds(ls[i as int]));
            assert(acc + a + lifeline_cmds(ls[i as int]) =~= acc + all_lifeline_cmds(ls.take(i + 1)));
        }
        i = i + 1;
    }
    proof {
        assert(l.lifeline_layouts@.take(i as int) =~= l.lifeline_layouts@);
    }
    let ghost acc2 = acc + all_lifeline_cmds(l.lifeline_layouts@);
    let mut i: usize = 0;
    while i < l.edge_layouts.len()
        invariant
            drawable(l),
            i <= l.edge_layouts@.len(),
            canvas.wf(),
            canvas.spec_width() == l.width,
            canvas.spec_height() == l.height,
            g == blank(l.width as nat, l.height as nat),
            canvas@ == paint(g, acc2 + all_edge_cmds(l.edge_layouts@.take(i as int))),
        decreases l.edge_layouts@.len() - i,
    {
        draw_edge(&mut canvas, &l.edge_layouts[i]);
        proof {
            let es = l.edge_layouts@;
            assert(es.take(i + 1).drop_last() =~= es.take(i as int));
            let a = all_edge_cmds(es.take(i as int));
            lemma_paint_concat(g, acc2 + a, edge_cmds(es[i as int]));
            assert(acc2 + a + edge_cmds(es[i as int]) =~= acc2 + all_edge_cmds(es.take(i + 1)));
        }
        i = i + 1;
    }
    proof {
        assert(l.edge_layouts@.take(i as int) =~= l.edge_layouts@);
        assert(acc2 + all_edge_cmds(l.edge_layouts@) =~= render_cmds(l));
    }
    canvas.to_string()
}

fn draw_participant_boxes(canvas: &mut Canvas, participant_layout: &ParticipantLayout)
    requires
        old(canvas).wf(),
        participant_drawable(
            *participant_layout,
            old(canvas).spec_width() as int,
            old(canvas).spec_height() as int,
        ),
    ensures
        final(canvas).wf(),
        final(canvas).spec_width() == old(canvas).spec_width(),
        final(canvas).spec_height() == old(canvas).spec_height(),
        final(canvas)@ == paint(old(canvas)@, participant_cmds(*participant_layout)),
{
    let p = participant_layout;
    let half_width = p.width / 2 + p.width % 2;
    let center_x = p.center_x;
    let left_x = center_x + 1 - half_width;
    let right_x = left_x + p.width - 1;
    let ghost g = canvas@;
    draw_box(canvas, center_x, left_x, right_x, p.top_box_y, p.name.clone(), true);
    let ghost mid = canvas@;
    draw_box(
        canvas,
        center_x,
        left_x,
        right_x,
        p.bottom_box_y - PARTICIPANT_HEIGHT,
        p.name.clone(),
        false,
    );
    proof {
        lemma_paint_concat(
            g,
            box_cmds(center_x as int, left_x as int, right_x as int, p.top_box_y as int, p.name@, true),
            box_cmds(
                center_x as int,
                left_x as int,
                right_x as int,
                p.bottom_box_y - PARTICIPANT_HEIGHT,
                p.name@,
                false,
            ),
        );
    }
}

fn draw_box(
    canvas: &mut Canvas,
    center_x: usize,
    left_x: usize,
    right_x: usize,
    y: usize,
    name: String,
    is_top_box: bool,
)
    requires
        old(canvas).wf(),
        left_x < old(canvas).spec_width(),
        right_x < old(canvas).spec_width(),
        center_x < old(canvas).spec_width(),
        y + 2 < old(canvas).spec_height(),
        display_width(name@) >= 1,
        (display_width(name@) - 1) / 2 <= center_x,
        name_start(center_x as int, display_width(name@) as int) + name@.len() <= old(
            canvas,
        ).spec_width(),
    ensures
        final(canvas).wf(),
        final(canvas).spec_width() == old(canvas).spec_width(),
        final(canvas).spec_height() == old(canvas).spec_height(),
        final(canvas)@ == paint(
            old(canvas)@,
            box_cmds(center_x as int, left_x as int, right_x as int, y as int, name@, is_top_box),
        ),
{
    let ghost g = canvas@;
    let ghost w = display_width(name@) as int;
    // Top border
    canvas.put(left_x, y, '┌');
    canvas.draw_hline(left_x + 1, right_x, y, '─');
    canvas.put(right_x, y, '┐');
    proof {
        lemma_paint_concat(g, dot(left_x as int, y as int, '┌'), hline(left_x + 1, right_x as int, y as int, '─'));
        lemma_paint_concat(g, dot(left_x as int, y as int, '┌') + hline(left_x + 1, right_x as int, y as int, '─'), dot(right_x as int, y as int, '┐'));
    }
    let ghost a = border_row(left_x as int, right_x as int, y as int, '┌', '┐');
    // Middle line
    canvas.put(left_x, y + 1, '│');
    let name_start_x = center_x - (text_width(name.as_str()) - 1) / 2;
    canvas.draw_text(name_start_x, y + 1, name.as_str());
    canvas.put(right_x, y + 1, '│');
    let ghost b1 = dot(left_x as int, y + 1, '│');
    let ghost b2 = text(name_start(center_x as int, w), y + 1, name@);
    let ghost b3 = dot(right_x as int, y + 1, '│');
    proof {
        lemma_paint_concat(g, a, b1);
        lemma_paint_concat(g, a + b1, b2);
        lemma_paint_concat(g, a + b1 + b2, b3);
    }
    let ghost b = b1 + b2 + b3;
    assert(a + b1 + b2 + b3 =~= a + b);
    // Bottom border
    canvas.put(left_x, y + 2, '└');
    canvas.draw_hline(left_x + 1, right_x, y + 2, '─');
    canvas.put(right_x, y + 2, '┘');
    let ghost c1 = dot(left_x as int, y + 2, '└');
    let ghost c2 = hline(left_x + 1, right_x as int, y + 2, '─');
    let ghost c3 = dot(right_x as int, y + 2, '┘');
    proof {
        lemma_paint_concat(g, a + b, c1);
        lemma_paint_concat(g, a + b + c1, c2);
        lemma_paint_concat(g, a + b + c1 + c2, c3);
    }
    let ghost c = border_row(left_x as int, right_x as int, y + 2, '└', '┘');
    assert(a + b + c1 + c2 + c3 =~= a + b + c);
    if is_top_box {
        canvas.put(center_x, y + 2, '┬');
        proof {
            lemma_paint_concat(g, a + b + c, dot(center_x as int, y + 2, '┬'));
        }
    } else {
        canvas.put(center_x, y, '┴');
        proof {
            lemma_paint_concat(g, a + b + c, dot(center_x as int, y as int, '┴'));
        }
    }
}

fn draw_lifeline(canvas: &mut Canvas, lifeline_layout: &LifelineLayout)
    requires
        old(canvas).wf(),
        lifeline_drawable(
            *lifeline_layout,
            old(canvas).spec_width() as int,
            old(canvas).spec_height() as int,
        ),
    ensures
        final(canvas).wf(),
        final(canvas).spec_width() == old(canvas).spec_width(),
        final(canvas).spec_height() == old(canvas).spec_height(),
        final(canvas)@ == paint(old(canvas)@, lifeline_cmds(*lifeline_layout)),
{
    let l = lifeline_layout;
    if l.start_y <= l.end_y {
        canvas.draw_vline(l.x, l.start_y, l.end_y + 1, '│');
    } else {
        assert(lifeline_cmds(*l) =~= Seq::<(int, int, char)>::empty());
    }
}

fn draw_edge(canvas: &mut Canvas, edge_layout: &EdgeLayout)
    requires
        old(canvas).wf(),
        edge_drawable(*edge_layout, old(canvas).spec_width() as int, old(canvas).spec_height() as int),
    ensures
        final(canvas).wf(),
        final(canvas).spec_width() == old(canvas).spec_width(),
        final(canvas).spec_height() == old(canvas).spec_height(),
        final(canvas)@ == paint(old(canvas)@, edge_cmds(*edge_layout)),
{
    let e = edge_layout;
    let ghost g = canvas@;
    // Order the ends so that start_x is the smaller column
    let (start_x, end_x, arrow_head) = match e.direction {
        ArrowDirection::Right => (e.start_x, e.end_x, '>'),
        ArrowDirection::Left => (e.end_x, e.start_x, '<'),
    };
    let edge_y: usize = if e.message.is_some() {
        e.y + 1
    } else {
        e.y
    };
    canvas.draw_hline(start_x, end_x + 1, edge_y, '─');
    let arrowhead_x: usize = match e.direction {
        ArrowDirection::Right => end_x,
        ArrowDirection::Left => start_x,
    };
    canvas.put(arrowhead_x, edge_y, arrow_head);
    let ghost a = hline(start_x as int, end_x + 1, edge_y as int, '─');
    let ghost b = dot(arrowhead_x as int, edge_y as int, arrow_head);
    proof {
        lemma_paint_concat(g, a, b);
    }
    if let Some(msg) = &e.message {
        let middle = start_x / 2 + end_x / 2 + (start_x % 2 + end_x % 2) / 2;
        let message_start_x = middle - text_width(msg.as_str()) / 2;
        canvas.draw_text(message_start_x, e.y, msg.as_str());
        proof {
            lemma_paint_concat(g, a + b, text(message_start_x as int, e.y as int, msg@));
        }
    } else {
        assert(a + b + Seq::<(int, int, char)>::empty() =~= a + b);
    }
}

/// Each name is at least one column wide and has no more characters than columns.
pub open spec fn names_fit(d: &SequenceDiagram) -> bool {
    forall|i: int|
        0 <= i < d.participants@.len() ==> 1 <= name_width(d, i) && (
        #[trigger] d.participants@[i])@.len() <= name_width(d, i)
}

/// Each label joins neighbouring participants and has no more characters than columns.
pub open spec fn labels_fit(d: &SequenceDiagram) -> bool {
    forall|k: int|
        0 <= k < d.edges@.len() && (#[trigger] d.edges@[k]).message is Some ==> {
            let fi = first_index(names(d), d.edges@[k].from@);
            let ti = first_index(names(d), d.edges@[k].to@);
            let m = d.edges@[k].message->Some_0@;
            &&& fi + 1 == ti || ti + 1 == fi
            &&& m.len() <= display_width(m)
        }
}

/// The layout computed for a diagram lies inside its own width and height, so it
/// can be rendered, when names and labels fit as above.
pub proof fn lemma_layout_drawable(d: &SequenceDiagram, r: &SequenceDiagramLayout)
    requires
        edges_known(d),
        fits_usize(d),
        is_layout_of(d, r),
        names_fit(d),
        labels_fit(d),
    ensures
        drawable(r),
{
    let n = d.participants@.len() as int;
    let w = r.width as int;
    let h = r.height as int;
    lemma_sequence_layout_separates(d, r);
    if n > 0 {
        lemma_center_mono(d, 0, n - 1);
    }
    assert forall|i: int| 0 <= i < r.participant_layouts@.len() implies participant_drawable(
        #[trigger] r.participant_layouts@[i],
        w,
        h,
    ) by {
        let p = r.participant_layouts@[i];
        assert(d.participants@[i]@.len() <= name_width(d, i));
        lemma_center_mono(d, i, n - 1);
        crate::layout::lemma_count_labeled_take_all(d.edges@);
        assert(center(d, 0) == 2 + name_width(d, 0) / 2);
        if i > 0 {
            lemma_center_mono(d, 0, i - 1);
            assert(center(d, i) == center(d, i - 1) + gap(d, i));
        }
        if i < n - 1 {
            lemma_center_mono(d, i + 1, n - 1);
            assert(center(d, i + 1) == center(d, i) + gap(d, i + 1));
        }
    }
    assert forall|i: int| 0 <= i < r.lifeline_layouts@.len() implies lifeline_drawable(
        #[trigger] r.lifeline_layouts@[i],
        w,
        h,
    ) by {
        lemma_center_mono(d, i, n - 1);
    }
    assert forall|k: int| 0 <= k < r.edge_layouts@.len() implies edge_drawable(
        #[trigger] r.edge_layouts@[k],
        w,
        h,
    ) by {
        let edge = d.edges@[k];
        let e = r.edge_layouts@[k];
        assert(crate::layout::edge_placed(d, k, e));
        let fi = first_index(names(d), edge.from@);
        let ti = first_index(names(d), edge.to@);
        lemma_first_index(names(d), edge.from@);
        lemma_first_index(names(d), edge.to@);
        lemma_center_mono(d, fi, n - 1);
        lemma_center_mono(d, ti, n - 1);
        if fi < ti {
            lemma_center_mono(d, fi, ti);
        } else if ti < fi {
            lemma_center_mono(d, ti, fi);
        }
        if e.message is Some {
            let lo = if fi < ti { fi } else { ti };
            lemma_center_mono(d, lo + 1, n - 1);
        }
    }
}

} // verus!
