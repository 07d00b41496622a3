use vstd::prelude::*;
use crate::text::{contains_text, display_width, text_width};

verus! {

/// One message of a sequence diagram, from one participant to another.
pub struct SequenceEdge {
    pub from: String,
    pub to: String,
    pub message: Option<String>,
}

/// Participants in order of first appearance, and messages in source order.
pub struct SequenceDiagram {
    pub participants: Vec<String>,
    pub edges: Vec<SequenceEdge>,
}

pub struct ParticipantLayout {
    pub name: String,
    pub center_x: usize,
    pub top_box_y: usize,
    pub bottom_box_y: usize,
    pub width: usize,
}

#[derive(Debug, Clone, Copy, PartialEq, Eq, Structural)]
pub enum ArrowDirection {
    Left,
    Right,
}

pub struct EdgeLayout {
    pub start_x: usize,
    pub end_x: usize,
    pub y: usize,
    pub direction: ArrowDirection,
    pub message: Option<String>,
}

pub struct LifelineLayout {
    pub x: usize,
    pub start_y: usize,
    pub end_y: usize,
}

pub struct SequenceDiagramLayout {
    pub participant_layouts: Vec<ParticipantLayout>,
    pub edge_layouts: Vec<EdgeLayout>,
    pub lifeline_layouts: Vec<LifelineLayout>,
    pub width: usize,
    pub height: usize,
}

pub const EDGE_SPACING: usize = 1;
pub const PARTICIPANT_HEIGHT: usize = 3;
pub const PARTICIPANT_PADDING_X: usize = 1;
pub const MESSAGE_PADDING_X: usize = 1;
pub const BORDER_WIDTH: usize = 1;

pub const MARGIN_LEFT: usize = 1;
pub const MARGIN_RIGHT: usize = 1;
pub const MARGIN_TOP: usize = 1;
pub const MARGIN_BOTTOM: usize = 1;

/// The participant names as character sequences.
pub open spec fn names(d: &SequenceDiagram) -> Seq<Seq<char>> {
    d.participants@.map_values(|s: String| s@)
}

/// Display width of participant `i`'s name.
pub open spec fn name_width(d: &SequenceDiagram, i: int) -> nat {
    display_width(d.participants@[i]@)
}

/// Width of a participant's box: its name plus padding and border on both sides.
pub open spec fn box_width(d: &SequenceDiagram, i: int) -> int {
    name_width(d, i) + 2 * PARTICIPANT_PADDING_X + 2 * BORDER_WIDTH
}

/// Number of edges that carry a label.
pub open spec fn count_labeled(edges: Seq<SequenceEdge>) -> int
    decreases edges.len(),
{
    if edges.len() == 0 {
        0
    } else {
        count_labeled(edges.drop_last()) + if edges.last().message is Some { 1int } else { 0int }
    }
}

/// The edge joins the participants named `a` and `b`, in either direction.
pub open spec fn connects(e: SequenceEdge, a: Seq<char>, b: Seq<char>) -> bool {
    (e.from@ == a && e.to@ == b) || (e.from@ == b && e.to@ == a)
}

/// Columns that an edge's label needs: its display width plus padding.
pub open spec fn label_room(e: SequenceEdge) -> int {
    match e.message {
        Some(m) => display_width(m@) + 2 * MESSAGE_PADDING_X,
        None => 0,
    }
}

/// The widest label room among the edges that join `a` and `b`; 0 if none.
pub open spec fn max_label(edges: Seq<SequenceEdge>, a: Seq<char>, b: Seq<char>) -> int
    decreases edges.len(),
{
    if edges.len() == 0 {
        0
    } else {
        let rest = max_label(edges.drop_last(), a, b);
        let here = if connects(edges.last(), a, b) { label_room(edges.last()) } else { 0 };
        if rest >= here { rest } else { here }
    }
}

/// Distance between the centers of participants `i - 1` and `i`.
pub open spec fn gap(d: &SequenceDiagram, i: int) -> int {
    let boxes = name_width(d, i - 1) / 2 + 2 * PARTICIPANT_PADDING_X + 2 * BORDER_WIDTH + (
    name_width(d, i) + 1) / 2;
    let labels = max_label(d.edges@, d.participants@[i - 1]@, d.participants@[i]@) + 1;
    if boxes >= labels { boxes } else { labels }
}

/// Column of participant `i`'s center (and lifeline).
pub open spec fn center(d: &SequenceDiagram, i: int) -> int
    decreases i,
{
    if i <= 0 {
        (MARGIN_LEFT - 1) + BORDER_WIDTH + PARTICIPANT_PADDING_X + name_width(d, 0) / 2
    } else {
        center(d, i - 1) + gap(d, i)
    }
}

/// Width of the whole diagram.
pub open spec fn diagram_width(d: &SequenceDiagram) -> int {
    let n = d.participants@.len();
    if n == 0 {
        (2 * PARTICIPANT_PADDING_X + 2 * BORDER_WIDTH) / 2 + MARGIN_RIGHT + 1
    } else {
        center(d, n - 1) + box_width(d, n - 1) / 2 + MARGIN_RIGHT + 1
    }
}

/// Height of the whole diagram: a spacing row, one row per edge and one more per
/// label, two rows of boxes, and the margins.
pub open spec fn diagram_height(d: &SequenceDiagram) -> int {
    let m = d.edges@.len();
    let labeled = count_labeled(d.edges@);
    (m + 1) * EDGE_SPACING + 2 * labeled + (m - labeled) + 2 * PARTICIPANT_HEIGHT + MARGIN_TOP
        + MARGIN_BOTTOM
}

/// Row of edge `k`: below the top boxes, after the rows of the edges before it.
pub open spec fn edge_row(edges: Seq<SequenceEdge>, k: int) -> int {
    MARGIN_TOP + PARTICIPANT_HEIGHT + EDGE_SPACING + (EDGE_SPACING + 1) * k + count_labeled(
        edges.take(k),
    )
}

/// Index of the first name equal to `s`, or -1.
pub open spec fn first_index(names: Seq<Seq<char>>, s: Seq<char>) -> int
    decreases names.len(),
{
    if names.len() == 0 {
        -1
    } else {
        let k = first_index(names.drop_last(), s);
        if k >= 0 {
            k
        } else if names.last() == s {
            names.len() - 1
        } else {
            -1
        }
    }
}

/// Every edge names participants of the diagram.
pub open spec fn edges_known(d: &SequenceDiagram) -> bool {
    forall|k: int|
        0 <= k < d.edges@.len() ==> names(d).contains((#[trigger] d.edges@[k]).from@) && names(
            d,
        ).contains(d.edges@[k].to@)
}

/// The diagram's extent, and each box width, fit in a machine word.
pub open spec fn fits_usize(d: &SequenceDiagram) -> bool {
    &&& diagram_width(d) <= usize::MAX
    &&& diagram_height(d) <= usize::MAX
    &&& forall|i: int| 0 <= i < d.participants@.len() ==> box_width(d, i) <= usize::MAX
}

/// Where edge `k` of the diagram is laid out.
pub open spec fn edge_placed(d: &SequenceDiagram, k: int, e: EdgeLayout) -> bool {
    let edge = d.edges@[k];
    let fi = first_index(names(d), edge.from@);
    let ti = first_index(names(d), edge.to@);
    &&& e.y == edge_row(d.edges@, k)
    &&& e.message == edge.message
    &&& if fi < ti {
        &&& e.direction == ArrowDirection::Right
        &&& e.start_x == center(d, fi) + 1
        &&& e.end_x == center(d, ti) - 1
    } else {
        &&& e.direction == ArrowDirection::Left
        &&& e.start_x == center(d, fi) - 1
        &&& e.end_x == center(d, ti) + 1
    }
}

/// The layout computed for diagram `d`.
pub open spec fn is_layout_of(d: &SequenceDiagram, r: &SequenceDiagramLayout) -> bool {
    let n = d.participants@.len();
    &&& r.width == diagram_width(d)
    &&& r.height == diagram_height(d)
    &&& r.participant_layouts@.len() == n
    &&& r.lifeline_layouts@.len() == n
    &&& r.edge_layouts@.len() == d.edges@.len()
    &&& forall|i: int|
        0 <= i < n ==> {
            let p = #[trigger] r.participant_layouts@[i];
            &&& p.name@ == d.participants@[i]@
            &&& p.center_x == center(d, i)
            &&& p.top_box_y == MARGIN_TOP
            &&& p.bottom_box_y == diagram_height(d) - MARGIN_BOTTOM
            &&& p.width == box_width(d, i)
        }
    &&& forall|i: int|
        0 <= i < n ==> {
            let l = #[trigger] r.lifeline_layouts@[i];
            &&& l.x == center(d, i)
            &&& l.start_y == MARGIN_TOP + PARTICIPANT_HEIGHT
            &&& l.end_y == diagram_height(d) - MARGIN_BOTTOM - PARTICIPANT_HEIGHT - EDGE_SPACING
        }
    &&& forall|k: int| 0 <= k < d.edges@.len() ==> edge_placed(d, k, #[trigger] r.edge_layouts@[k])
}

pub proof fn lemma_center_mono(d: &SequenceDiagram, i: int, j: int)
    requires
        0 <= i <= j,
    ensures
        center(d, i) <= center(d, j),
        i < j ==> center(d, i) < center(d, j),
    decreases j - i,
{
    if i < j {
        lemma_center_mono(d, i, j - 1);
    }
}

proof fn lemma_center_at_least_two(d: &SequenceDiagram, i: int)
    requires
        0 <= i,
    ensures
        center(d, i) >= 2,
{
    lemma_center_mono(d, 0, i);
}

pub proof fn lemma_first_index(names: Seq<Seq<char>>, s: Seq<char>)
    ensures
        names.contains(s) ==> {
            let k = first_index(names, s);
            &&& 0 <= k < names.len()
            &&& names[k] == s
            &&& forall|j: int| 0 <= j < k ==> names[j] != s
        },
        !names.contains(s) ==> first_index(names, s) == -1,
    decreases names.len(),
{
    if names.len() > 0 {
        let p = names.drop_last();
        lemma_first_index(p, s);
        assert forall|j: int| 0 <= j < p.len() implies names[j] == p[j] by {}
        if names.contains(s) && !p.contains(s) {
            assert forall|j: int| 0 <= j < names.len() - 1 implies names[j] != s by {
                if names[j] == s {
                    assert(p[j] == s);
                }
            }
        }
        if p.contains(s) {
            let j = choose|j: int| 0 <= j < p.len() && p[j] == s;
            assert(names[j] == s);
        }
        if names.contains(s) && !p.contains(s) {
            let j = choose|j: int| 0 <= j < names.len() && names[j] == s;
            if j < names.len() - 1 {
                assert(p[j] == s);
            }
        }
        if !names.contains(s) && p.contains(s) {
            let j = choose|j: int| 0 <= j < p.len() && p[j] == s;
            assert(names[j] == s);
        }
    }
}

proof fn lemma_count_labeled_take(edges: Seq<SequenceEdge>, k: int)
    requires
        0 <= k < edges.len(),
    ensures
        count_labeled(edges.take(k + 1)) == count_labeled(edges.take(k)) + if edges[k].message is Some {
            1int
        } else {
            0int
        },
        0 <= count_labeled(edges.take(k)) <= k,
    decreases k,
{
    assert(edges.take(k + 1).drop_last() =~= edges.take(k));
    if k > 0 {
        lemma_count_labeled_take(edges, k - 1);
    }
}

proof fn lemma_max_label_prefix(edges: Seq<SequenceEdge>, a: Seq<char>, b: Seq<char>, i: int)
    requires
        0 <= i <= edges.len(),
    ensures
        max_label(edges.take(i), a, b) <= max_label(edges, a, b),
        forall|k: int|
            0 <= k < i && connects(#[trigger] edges[k], a, b) ==> label_room(edges[k]) <= max_label(
                edges.take(i),
                a,
                b,
            ),
    decreases edges.len() - i,
{
    if i < edges.len() {
        lemma_max_label_prefix(edges, a, b, i + 1);
        assert(edges.take(i + 1).drop_last() =~= edges.take(i));
    } else {
        assert(edges.take(i) =~= edges);
    }
    if i > 0 {
        assert(edges.take(i).drop_last() =~= edges.take(i - 1));
        lemma_max_label_prefix_inner(edges, a, b, i);
    }
}

proof fn lemma_max_label_prefix_inner(edges: Seq<SequenceEdge>, a: Seq<char>, b: Seq<char>, i: int)
    requires
        0 < i <= edges.len(),
    ensures
        forall|k: int|
            0 <= k < i && connects(#[trigger] edges[k], a, b) ==> label_room(edges[k]) <= max_label(
                edges.take(i),
                a,
                b,
            ),
    decreases i,
{
    assert(edges.take(i).drop_last() =~= edges.take(i - 1));
    if i > 1 {
        lemma_max_label_prefix_inner(edges, a, b, i - 1);
    }
}

/// Counts the edges with a label and those without.
fn count_edges(sequence_diagram: &SequenceDiagram) -> (r: (usize, usize))
    ensures
        r.0 == count_labeled(sequence_diagram.edges@),
        r.0 + r.1 == sequence_diagram.edges@.len(),
{
    let edges = &sequence_diagram.edges;
    let mut with: usize = 0;
    let mut without: usize = 0;
    let mut i: usize = 0;
    while i < edges.len()
        invariant
            i <= edges@.len(),
            with == count_labeled(edges@.take(i as int)),
            with + without == i,
        decreases edges@.len() - i,
    {
        proof {
            lemma_count_labeled_take(edges@, i as int);
        }
        if edges[i].message.is_some() {
            with = with + 1;
        } else {
            without = without + 1;
        }
        i = i + 1;
    }
    assert(edges@.take(i as int) =~= edges@);
    (with, without)
}

/// The widest label room among the edges joining `part1` and `part2`.
fn max_edge_width(edges: &Vec<SequenceEdge>, part1: &String, part2: &String) -> (r: usize)
    requires
        max_label(edges@, part1@, part2@) <= usize::MAX,
    ensures
        r == max_label(edges@, part1@, part2@),
{
    let mut max_width: usize = 0;
    let mut i: usize = 0;
    while i < edges.len()
        invariant
            i <= edges@.len(),
            max_width == max_label(edges@.take(i as int), part1@, part2@),
            max_label(edges@, part1@, part2@) <= usize::MAX,
        decreases edges@.len() - i,
    {
        let edge = &edges[i];
        proof {
            assert(edges@.take(i + 1).drop_last() =~= edges@.take(i as int));
            assert(edges@.take(i + 1).last() == edges@[i as int]);
            lemma_max_label_prefix(edges@, part1@, part2@, i + 1);
        }
        if (edge.from == *part1 && edge.to == *part2) || (edge.from == *part2 && edge.to == *part1) {
            if let Some(msg) = &edge.message {
                let room = text_width(msg.as_str()) + MESSAGE_PADDING_X * 2;
                if room > max_width {
                    max_width = room;
                }
            }
        }
        i = i + 1;
    }
    assert(edges@.take(i as int) =~= edges@);
    max_width
}

/// Center column of each participant, left to right.
fn calculate_horizontal_positions(sequence_diagram: &SequenceDiagram) -> (r: Vec<usize>)
    requires
        fits_usize(sequence_diagram),
    ensures
        r@.len() == sequence_diagram.participants@.len(),
        forall|i: int| 0 <= i < r@.len() ==> r@[i] == center(sequence_diagram, i),
{
    let d = sequence_diagram;
    let parts = &d.participants;
    let n = parts.len();
    let mut horizontal_positions: Vec<usize> = Vec::new();
    if n == 0 {
        return horizontal_positions;
    }
    proof {
        lemma_center_mono(d, 0, n - 1);
    }
    let mut current_position: usize = MARGIN_LEFT - 1 + BORDER_WIDTH + PARTICIPANT_PADDING_X
        + text_width(parts[0].as_str()) / 2;
    horizontal_positions.push(current_position);
    let mut i: usize = 1;
    while i < n
        invariant
            n == parts@.len(),
            parts == d.participants,
            1 <= i <= n,
            fits_usize(d),
            horizontal_positions@.len() == i,
            current_position == center(d, i - 1),
            forall|j: int| 0 <= j < i ==> horizontal_positions@[j] == center(d, j),
        decreases n - i,
    {
        proof {
            lemma_center_mono(d, i as int, n - 1);
        }
        let left_width = text_width(parts[i - 1].as_str());
        let right_width = text_width(parts[i].as_str());
        let space_without_message = left_width / 2 + (2 * PARTICIPANT_PADDING_X) + (2
            * BORDER_WIDTH) + (right_width / 2 + right_width % 2);
        let space_with_message = max_edge_width(&d.edges, &parts[i - 1], &parts[i]);
        let space = if space_without_message >= space_with_message + 1 {
            space_without_message
        } else {
            space_with_message + 1
        };
        current_position = current_position + space;
        horizontal_positions.push(current_position);
        i = i + 1;
    }
    horizontal_positions
}

/// Index of the first participant named `name`.
pub(crate) fn participant_index(participants: &Vec<String>, name: &String) -> (r: usize)
    requires
        participants@.map_values(|s: String| s@).contains(name@),
    ensures
        r as int == first_index(participants@.map_values(|s: String| s@), name@),
        r < participants@.len(),
{
    let ghost all = participants@.map_values(|s: String| s@);
    proof {
        lemma_first_index(all, name@);
    }
    let mut i: usize = 0;
    while i < participants.len()
        invariant
            i <= participants@.len(),
            all == participants@.map_values(|s: String| s@),
            all.len() == participants@.len(),
            all.contains(name@),
            0 <= first_index(all, name@) < all.len(),
            all[first_index(all, name@)] == name@,
            forall|j: int| 0 <= j < first_index(all, name@) ==> all[j] != name@,
            first_index(all, name@) >= i,
        decreases participants@.len() - i,
    {
        assert(all[i as int] == participants@[i as int]@);
        if participants[i] == *name {
            return i;
        }
        i = i + 1;
    }
    i
}

fn calculate_participant_layouts(
    total_height: usize,
    sequence_diagram: &SequenceDiagram,
    positions: &Vec<usize>,
) -> (r: Vec<ParticipantLayout>)
    requires
        fits_usize(sequence_diagram),
        total_height == diagram_height(sequence_diagram),
        positions@.len() == sequence_diagram.participants@.len(),
        forall|i: int| 0 <= i < positions@.len() ==> positions@[i] == center(sequence_diagram, i),
    ensures
        r@.len() == sequence_diagram.participants@.len(),
        forall|i: int|
            0 <= i < r@.len() ==> {
                let p = #[trigger] r@[i];
                &&& p.name@ == sequence_diagram.participants@[i]@
                &&& p.center_x == center(sequence_diagram, i)
                &&& p.top_box_y == MARGIN_TOP
                &&& p.bottom_box_y == diagram_height(sequence_diagram) - MARGIN_BOTTOM
                &&& p.width == box_width(sequence_diagram, i)
            },
{
    let d = sequence_diagram;
    proof {
        lemma_count_labeled_take_all(d.edges@);
    }
    let mut part_layouts: Vec<ParticipantLayout> = Vec::new();
    let mut i: usize = 0;
    while i < d.participants.len()
        invariant
            i <= d.participants@.len(),
            fits_usize(d),
            total_height == diagram_height(d),
            0 <= count_labeled(d.edges@) <= d.edges@.len(),
            positions@.len() == d.participants@.len(),
            forall|j: int| 0 <= j < positions@.len() ==> positions@[j] == center(d, j),
            part_layouts@.len() == i,
            forall|j: int|
                0 <= j < i ==> {
                    let p = #[trigger] part_layouts@[j];
                    &&& p.name@ == d.participants@[j]@
                    &&& p.center_x == center(d, j)
                    &&& p.top_box_y == MARGIN_TOP
                    &&& p.bottom_box_y == diagram_height(d) - MARGIN_BOTTOM
                    &&& p.width == box_width(d, j)
                },
        decreases d.participants@.len() - i,
    {
        let name = &d.participants[i];
        assert(diagram_height(d) >= 9) by {
            let m = d.edges@.len() as int;
            let c = count_labeled(d.edges@);
            assert(0 <= c <= m);
            assert((m + 1) * EDGE_SPACING == m + 1);
        }
        assert(box_width(d, i as int) <= usize::MAX);
        part_layouts.push(
            ParticipantLayout {
                name: name.clone(),
                center_x: positions[i],
                top_box_y: MARGIN_TOP,
                bottom_box_y: total_height - MARGIN_BOTTOM,
                width: text_width(name.as_str()) + PARTICIPANT_PADDING_X * 2 + BORDER_WIDTH * 2,
            },
        );
        i = i + 1;
    }
    part_layouts
}

fn calculate_lifeline_layouts(total_height: usize, positions: &Vec<usize>) -> (r: Vec<
    LifelineLayout,
>)
    requires
        total_height >= MARGIN_BOTTOM + PARTICIPANT_HEIGHT + EDGE_SPACING,
    ensures
        r@.len() == positions@.len(),
        forall|i: int|
            0 <= i < r@.len() ==> {
                let l = #[trigger] r@[i];
                &&& l.x == positions@[i]
                &&& l.start_y == MARGIN_TOP + PARTICIPANT_HEIGHT
                &&& l.end_y == total_height - MARGIN_BOTTOM - PARTICIPANT_HEIGHT - EDGE_SPACING
            },
{
    let mut lifeline_layouts: Vec<LifelineLayout> = Vec::new();
    let mut i: usize = 0;
    while i < positions.len()
        invariant
            i <= positions@.len(),
            total_height >= MARGIN_BOTTOM + PARTICIPANT_HEIGHT + EDGE_SPACING,
            lifeline_layouts@.len() == i,
            forall|j: int|
                0 <= j < i ==> {
                    let l = #[trigger] lifeline_layouts@[j];
                    &&& l.x == positions@[j]
                    &&& l.start_y == MARGIN_TOP + PARTICIPANT_HEIGHT
                    &&& l.end_y == total_height - MARGIN_BOTTOM - PARTICIPANT_HEIGHT
                        - EDGE_SPACING
                },
        decreases positions@.len() - i,
    {
        lifeline_layouts.push(
            LifelineLayout {
                start_y: MARGIN_TOP + PARTICIPANT_HEIGHT,
                end_y: total_height - MARGIN_BOTTOM - PARTICIPANT_HEIGHT - EDGE_SPACING,
                x: positions[i],
            },
        );
        i = i + 1;
    }
    lifeline_layouts
}

fn calculate_edge_layouts(sequence_diagram: &SequenceDiagram, positions: &Vec<usize>) -> (r: Vec<
    EdgeLayout,
>)
    requires
        fits_usize(sequence_diagram),
        edges_known(sequence_diagram),
        positions@.len() == sequence_diagram.participants@.len(),
        forall|i: int| 0 <= i < positions@.len() ==> positions@[i] == center(sequence_diagram, i),
    ensures
        r@.len() == sequence_diagram.edges@.len(),
        forall|k: int|
            0 <= k < r@.len() ==> edge_placed(sequence_diagram, k, #[trigger] r@[k]),
{
    let d = sequence_diagram;
    let n = d.participants.len();
    let mut edge_layouts: Vec<EdgeLayout> = Vec::new();
    let mut current_y: usize = MARGIN_TOP + PARTICIPANT_HEIGHT + EDGE_SPACING;
    let mut k: usize = 0;
    while k < d.edges.len()
        invariant
            k <= d.edges@.len(),
            n == d.participants@.len(),
            fits_usize(d),
            edges_known(d),
            positions@.len() == n,
            forall|i: int| 0 <= i < n ==> positions@[i] == center(d, i),
            current_y == edge_row(d.edges@, k as int),
            edge_layouts@.len() == k,
            forall|j: int| 0 <= j < k ==> edge_placed(d, j, #[trigger] edge_layouts@[j]),
        decreases d.edges@.len() - k,
    {
        let edge = &d.edges[k];
        let from_index = participant_index(&d.participants, &edge.from);
        let to_index = participant_index(&d.participants, &edge.to);
        proof {
            lemma_center_at_least_two(d, from_index as int);
            lemma_center_at_least_two(d, to_index as int);
            lemma_center_mono(d, from_index as int, n - 1);
            lemma_center_mono(d, to_index as int, n - 1);
            lemma_count_labeled_take(d.edges@, k as int);
            lemma_count_labeled_take_all(d.edges@);
            lemma_count_labeled_mono(d.edges@, k + 1);
        }
        let arrow_direction = if from_index < to_index {
            ArrowDirection::Right
        } else {
            ArrowDirection::Left
        };
        let (start_x, end_x) = match arrow_direction {
            ArrowDirection::Right => (positions[from_index] + 1, positions[to_index] - 1),
            ArrowDirection::Left => (positions[from_index] - 1, positions[to_index] + 1),
        };
        let message = match &edge.message {
            Some(m) => Some(m.clone()),
            None => None,
        };
        edge_layouts.push(
            EdgeLayout { start_x, end_x, y: current_y, direction: arrow_direction, message },
        );
        current_y = current_y + EDGE_SPACING + 1;
        if edge.message.is_some() {
            current_y = current_y + 1;
        }
        k = k + 1;
    }
    edge_layouts
}

proof fn lemma_count_labeled_mono(edges: Seq<SequenceEdge>, i: int)
    requires
        0 <= i <= edges.len(),
    ensures
        count_labeled(edges.take(i)) <= count_labeled(edges),
    decreases edges.len() - i,
{
    if i < edges.len() {
        lemma_count_labeled_take(edges, i);
        lemma_count_labeled_mono(edges, i + 1);
    } else {
        assert(edges.take(i) =~= edges);
    }
}

pub proof fn lemma_count_labeled_take_all(edges: Seq<SequenceEdge>)
    ensures
        0 <= count_labeled(edges) <= edges.len(),
        edges.take(edges.len() as int) == edges,
{
    assert(edges.take(edges.len() as int) =~= edges);
    if edges.len() > 0 {
        lemma_count_labeled_take(edges, edges.len() - 1);
        assert(edges.take(edges.len() - 1) =~= edges.drop_last());
    }
}

/// Lays out a sequence diagram: participants left to right in order, edges top to
/// bottom in order, with each pair of neighbours spaced for their boxes and for the
/// widest label between them.
pub fn calculate_sequence_layout(sequence_diagram: &SequenceDiagram) -> (r: SequenceDiagramLayout)
    requires
        edges_known(sequence_diagram),
        fits_usize(sequence_diagram),
    ensures
        is_layout_of(sequence_diagram, &r),
{
    let d = sequence_diagram;
    proof {
        lemma_count_labeled_take_all(d.edges@);
    }
    let (edges_with_message, edges_without_message) = count_edges(d);
    let total_height = (edges_with_message + edges_without_message + 1) * EDGE_SPACING
        + edges_with_message * 2 + edges_without_message * 1 + PARTICIPANT_HEIGHT * 2 + MARGIN_TOP
        + MARGIN_BOTTOM;
    let positions = calculate_horizontal_positions(d);
    let n = d.participants.len();
    let total_width = if n == 0 {
        (PARTICIPANT_PADDING_X * 2 + BORDER_WIDTH * 2) / 2 + MARGIN_RIGHT + 1
    } else {
        // the box is split around its center, the right part being the smaller half
        let last_part_width = text_width(d.participants[n - 1].as_str());
        positions[n - 1] + (last_part_width / 2 + PARTICIPANT_PADDING_X + BORDER_WIDTH)
            + MARGIN_RIGHT + 1
    };
    let part_layouts = calculate_participant_layouts(total_height, d, &positions);
    let lifeline_layouts = calculate_lifeline_layouts(total_height, &positions);
    let edge_layouts = calculate_edge_layouts(d, &positions);
    SequenceDiagramLayout {
        edge_layouts,
        lifeline_layouts,
        participant_layouts: part_layouts,
        width: total_width,
        height: total_height,
    }
}

/// First column of a participant's box.
pub open spec fn box_left(p: ParticipantLayout) -> int {
    p.center_x - (p.width + 1) / 2 + 1
}

/// Last column of a participant's box.
pub open spec fn box_right(p: ParticipantLayout) -> int {
    box_left(p) + p.width - 1
}

/// The smaller and the greater column of an edge's span.
pub open spec fn edge_low(e: EdgeLayout) -> int {
    match e.direction {
        ArrowDirection::Right => e.start_x as int,
        ArrowDirection::Left => e.end_x as int,
    }
}

pub open spec fn edge_high(e: EdgeLayout) -> int {
    match e.direction {
        ArrowDirection::Right => e.end_x as int,
        ArrowDirection::Left => e.start_x as int,
    }
}

/// First column of a label of display width `w`, centered over the edge.
pub open spec fn label_start(e: EdgeLayout, w: int) -> int {
    (edge_low(e) + edge_high(e)) / 2 - w / 2
}

proof fn lemma_adjacent_boxes(d: &SequenceDiagram, r: &SequenceDiagramLayout, i: int)
    requires
        is_layout_of(d, r),
        0 < i < d.participants@.len(),
    ensures
        box_right(r.participant_layouts@[i - 1]) < box_left(r.participant_layouts@[i]),
        box_left(r.participant_layouts@[i - 1]) < box_left(r.participant_layouts@[i]),
{
    let p = r.participant_layouts@[i - 1];
    let q = r.participant_layouts@[i];
    assert(center(d, i) == center(d, i - 1) + gap(d, i));
}

proof fn lemma_boxes_ordered(d: &SequenceDiagram, r: &SequenceDiagramLayout, i: int, j: int)
    requires
        is_layout_of(d, r),
        0 <= i < j < d.participants@.len(),
    ensures
        box_right(r.participant_layouts@[i]) < box_left(r.participant_layouts@[j]),
    decreases j - i,
{
    lemma_adjacent_boxes(d, r, j);
    if i < j - 1 {
        lemma_boxes_ordered(d, r, i, j - 1);
    }
}

/// In a laid-out sequence diagram no two participant boxes overlap; every edge and
/// its label sit on rows strictly between the top and the bottom boxes; and the
/// label of an edge between neighbouring participants lies strictly between their
/// lifelines.
pub proof fn lemma_sequence_layout_separates(d: &SequenceDiagram, r: &SequenceDiagramLayout)
    requires
        edges_known(d),
        is_layout_of(d, r),
    ensures
        forall|i: int, j: int|
            0 <= i < j < d.participants@.len() ==> box_right(
                #[trigger] r.participant_layouts@[i],
            ) < box_left(#[trigger] r.participant_layouts@[j]),
        forall|k: int|
            0 <= k < d.edges@.len() ==> {
                let e = #[trigger] r.edge_layouts@[k];
                let last_row = if e.message is Some { e.y + 1 } else { e.y as int };
                &&& MARGIN_TOP + PARTICIPANT_HEIGHT < e.y
                &&& last_row < r.height - MARGIN_BOTTOM - PARTICIPANT_HEIGHT
            },
        forall|k: int|
            0 <= k < d.edges@.len() && (#[trigger] r.edge_layouts@[k]).message is Some && {
                let fi = first_index(names(d), d.edges@[k].from@);
                let ti = first_index(names(d), d.edges@[k].to@);
                fi + 1 == ti || ti + 1 == fi
            } ==> {
                let e = r.edge_layouts@[k];
                let fi = first_index(names(d), d.edges@[k].from@);
                let ti = first_index(names(d), d.edges@[k].to@);
                let lo = if fi < ti { fi } else { ti };
                let w = display_width(e.message->Some_0@) as int;
                &&& center(d, lo) < label_start(e, w)
                &&& label_start(e, w) + w <= center(d, lo + 1)
            },
{
    assert forall|i: int, j: int|
        0 <= i < j < d.participants@.len() implies box_right(
        #[trigger] r.participant_layouts@[i],
    ) < box_left(#[trigger] r.participant_layouts@[j]) by {
        lemma_boxes_ordered(d, r, i, j);
    }
    lemma_count_labeled_take_all(d.edges@);
    assert forall|k: int| 0 <= k < d.edges@.len() implies {
        let e = #[trigger] r.edge_layouts@[k];
        let last_row = if e.message is Some { e.y + 1 } else { e.y as int };
        &&& MARGIN_TOP + PARTICIPANT_HEIGHT < e.y
        &&& last_row < r.height - MARGIN_BOTTOM - PARTICIPANT_HEIGHT
    } by {
        assert(edge_placed(d, k, r.edge_layouts@[k]));
        lemma_count_labeled_take(d.edges@, k);
        lemma_count_labeled_mono(d.edges@, k + 1);
    }
    assert forall|k: int|
        0 <= k < d.edges@.len() && (#[trigger] r.edge_layouts@[k]).message is Some && {
            let fi = first_index(names(d), d.edges@[k].from@);
            let ti = first_index(names(d), d.edges@[k].to@);
            fi + 1 == ti || ti + 1 == fi
        } implies {
        let e = r.edge_layouts@[k];
        let fi = first_index(names(d), d.edges@[k].from@);
        let ti = first_index(names(d), d.edges@[k].to@);
        let lo = if fi < ti { fi } else { ti };
        let w = display_width(e.message->Some_0@) as int;
        &&& center(d, lo) < label_start(e, w)
        &&& label_start(e, w) + w <= center(d, lo + 1)
    } by {
        let edge = d.edges@[k];
        let e = r.edge_layouts@[k];
        assert(edge_placed(d, k, e));
        let fi = first_index(names(d), edge.from@);
        let ti = first_index(names(d), edge.to@);
        lemma_first_index(names(d), edge.from@);
        lemma_first_index(names(d), edge.to@);
        let lo = if fi < ti { fi } else { ti };
        let a = d.participants@[lo]@;
        let b = d.participants@[lo + 1]@;
        assert(names(d)[fi] == d.participants@[fi]@);
        assert(names(d)[ti] == d.participants@[ti]@);
        assert(connects(edge, a, b));
        lemma_max_label_prefix(d.edges@, a, b, d.edges@.len() as int);
        assert(d.edges@.take(d.edges@.len() as int) =~= d.edges@);
        assert(label_room(edge) <= max_label(d.edges@, a, b));
        assert(center(d, lo + 1) == center(d, lo) + gap(d, lo + 1));
        lemma_center_at_least_two(d, lo);
    }
}

/// The widest label room among the edges joining `part1` and `part2`, in a wider
/// integer type so that nothing overflows.
fn max_label_wide(edges: &Vec<SequenceEdge>, part1: &String, part2: &String) -> (r: u128)
    ensures
        r == max_label(edges@, part1@, part2@),
        r <= usize::MAX + 2,
{
    let mut max_width: u128 = 0;
    let mut i: usize = 0;
    while i < edges.len()
        invariant
            i <= edges@.len(),
            max_width == max_label(edges@.take(i as int), part1@, part2@),
            max_width <= usize::MAX + 2,
        decreases edges@.len() - i,
    {
        let edge = &edges[i];
        proof {
            assert(edges@.take(i + 1).drop_last() =~= edges@.take(i as int));
            assert(edges@.take(i + 1).last() == edges@[i as int]);
        }
        if (edge.from == *part1 && edge.to == *part2) || (edge.from == *part2 && edge.to == *part1) {
            if let Some(msg) = &edge.message {
                let room = text_width(msg.as_str()) as u128 + 2;
                if room > max_width {
                    max_width = room;
                }
            }
        }
        i = i + 1;
    }
    assert(edges@.take(i as int) =~= edges@);
    max_width
}

/// The layout of `d`, or `None` when an edge names someone who is not a participant
/// or the diagram is too large for machine-word coordinates.
pub fn checked_sequence_layout(sequence_diagram: &SequenceDiagram) -> (r: Option<SequenceDiagramLayout>)
    ensures
        match r {
            Some(l) => edges_known(sequence_diagram) && fits_usize(sequence_diagram) && is_layout_of(
                sequence_diagram,
                &l,
            ),
            None => !(edges_known(sequence_diagram) && fits_usize(sequence_diagram)),
        },
{
    let d = sequence_diagram;
    let mut k: usize = 0;
    while k < d.edges.len()
        invariant
            d == sequence_diagram,
            k <= d.edges@.len(),
            forall|j: int|
                0 <= j < k ==> names(d).contains((#[trigger] d.edges@[j]).from@) && names(d).contains(
                    d.edges@[j].to@,
                ),
        decreases d.edges@.len() - k,
    {
        if !contains_text(&d.participants, d.edges[k].from.as_str()) || !contains_text(
            &d.participants,
            d.edges[k].to.as_str(),
        ) {
            assert(!(names(d).contains(d.edges@[k as int].from@) && names(d).contains(
                d.edges@[k as int].to@,
            )));
            return None;
        }
        k = k + 1;
    }
    let n = d.participants.len();
    let mut position: u128 = 0;
    let mut i: usize = 0;
    while i < n
        invariant
            d == sequence_diagram,
            edges_known(d),
            n == d.participants@.len(),
            i <= n,
            i > 0 ==> position == center(d, i - 1),
            i > 0 ==> position <= usize::MAX,
            forall|j: int| 0 <= j < i ==> box_width(d, j) <= usize::MAX,
        decreases n - i,
    {
        let width = text_width(d.participants[i].as_str());
        if width > usize::MAX - 4 {
            assert(box_width(d, i as int) > usize::MAX);
            return None;
        }
        if i == 0 {
            position = 2 + (width / 2) as u128;
        } else {
            let left = text_width(d.participants[i - 1].as_str());
            let boxes = (left / 2) as u128 + 4 + (width / 2) as u128 + (width % 2) as u128;
            let labels = max_label_wide(&d.edges, &d.participants[i - 1], &d.participants[i]) + 1;
            position = position + if boxes >= labels {
                boxes
            } else {
                labels
            };
            if position > usize::MAX as u128 {
                proof {
                    lemma_center_mono(d, i as int, n - 1);
                    assert(diagram_width(d) >= center(d, n - 1));
                }
                return None;
            }
        }
        i = i + 1;
    }
    let m = d.edges.len();
    let (labeled, _) = count_edges(d);
    let height = 2 * (m as u128) + labeled as u128 + 9;
    let total_width: u128 = if n == 0 {
        4
    } else {
        position + (text_width(d.participants[n - 1].as_str()) / 2) as u128 + 4
    };
    if height > usize::MAX as u128 || total_width > usize::MAX as u128 {
        return None;
    }
    Some(calculate_sequence_layout(d))
}

} // verus!
