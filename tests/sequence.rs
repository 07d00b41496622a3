use gram::layout::{calculate_sequence_layout, ArrowDirection, SequenceDiagram, SequenceEdge};
use gram::renderer::{render, Canvas};

fn edge(from: &str, to: &str, message: Option<&str>) -> SequenceEdge {
    SequenceEdge {
        from: from.to_string(),
        to: to.to_string(),
        message: message.map(|m| m.to_string()),
    }
}

fn diagram(participants: &[&str], edges: Vec<SequenceEdge>) -> SequenceDiagram {
    SequenceDiagram {
        participants: participants.iter().map(|p| p.to_string()).collect(),
        edges,
    }
}

#[test]
fn login_scenario_directions_and_rows() {
    let d = diagram(
        &["Client", "Server"],
        vec![
            edge("Client", "Server", Some("Login")),
            edge("Server", "Client", Some("LoginSuccess")),
        ],
    );
    let l = calculate_sequence_layout(&d);
    let client = &l.participant_layouts[0];
    let server = &l.participant_layouts[1];
    assert_eq!(client.name, "Client");
    assert_eq!(server.name, "Server");
    assert!(client.center_x < server.center_x);
    let first = &l.edge_layouts[0];
    let second = &l.edge_layouts[1];
    assert_eq!(first.direction, ArrowDirection::Right);
    assert_eq!(first.end_x, server.center_x - 1);
    assert_eq!(second.direction, ArrowDirection::Left);
    assert_eq!(second.end_x, client.center_x + 1);
    assert!(second.y > first.y);
}

#[test]
fn small_diagram_layout_numbers() {
    let d = diagram(&["A", "B"], vec![edge("A", "B", Some("hi"))]);
    let l = calculate_sequence_layout(&d);
    assert_eq!(l.width, 11);
    assert_eq!(l.height, 12);
    assert_eq!(l.participant_layouts[0].center_x, 2);
    assert_eq!(l.participant_layouts[1].center_x, 7);
    assert_eq!(l.participant_layouts[0].width, 5);
    assert_eq!(l.participant_layouts[0].bottom_box_y, 11);
    assert_eq!(l.lifeline_layouts[1].x, 7);
    assert_eq!(l.lifeline_layouts[1].start_y, 4);
    assert_eq!(l.lifeline_layouts[1].end_y, 7);
    assert_eq!(l.edge_layouts[0].start_x, 3);
    assert_eq!(l.edge_layouts[0].end_x, 6);
    assert_eq!(l.edge_layouts[0].y, 5);
}

#[test]
fn small_diagram_renders_exactly() {
    let d = diagram(&["A", "B"], vec![edge("A", "B", Some("hi"))]);
    let text = render(&calculate_sequence_layout(&d));
    let expected = [
        "           ",
        "┌───┐┌───┐ ",
        "│ A ││ B │ ",
        "└─┬─┘└─┬─┘ ",
        "  │    │   ",
        "  │hi  │   ",
        "  │───>│   ",
        "  │    │   ",
        "┌─┴─┐┌─┴─┐ ",
        "│ A ││ B │ ",
        "└───┘└───┘ ",
        "           ",
    ]
    .join("\n");
    assert_eq!(text, expected);
}

#[test]
fn leftward_edge_without_label() {
    let d = diagram(&["A", "B"], vec![edge("B", "A", None)]);
    let l = calculate_sequence_layout(&d);
    assert_eq!(l.height, 11);
    let e = &l.edge_layouts[0];
    assert_eq!(e.direction, ArrowDirection::Left);
    assert_eq!(e.start_x, 6);
    assert_eq!(e.end_x, 3);
    let text = render(&l);
    let rows: Vec<&str> = text.split('\n').collect();
    assert_eq!(rows[5], "  │<───│   ");
}

#[test]
fn long_label_widens_gap_and_stays_between_lifelines() {
    let d = diagram(&["A", "B"], vec![edge("A", "B", Some("a long message"))]);
    let l = calculate_sequence_layout(&d);
    let a = l.participant_layouts[0].center_x;
    let b = l.participant_layouts[1].center_x;
    // label width 14, plus padding 2, plus one column
    assert_eq!(b - a, 17);
    let e = &l.edge_layouts[0];
    let start = (e.start_x + e.end_x) / 2 - 14 / 2;
    assert!(a < start && start + 14 <= b);
    let text = render(&l);
    let row: Vec<char> = text.split('\n').nth(5).unwrap().chars().collect();
    let label: String = row[start..start + 14].iter().collect();
    assert_eq!(label, "a long message");
}

#[test]
fn neighbouring_boxes_do_not_overlap() {
    let d = diagram(&["Alpha", "B", "Gamma-service"], vec![edge("Alpha", "Gamma-service", None)]);
    let l = calculate_sequence_layout(&d);
    for pair in l.participant_layouts.windows(2) {
        let left_end = pair[0].center_x + 1 - (pair[0].width + 1) / 2 + pair[0].width - 1;
        let right_start = pair[1].center_x + 1 - (pair[1].width + 1) / 2;
        assert!(left_end < right_start);
    }
}

#[test]
fn empty_diagram_layout() {
    let d = diagram(&[], vec![]);
    let l = calculate_sequence_layout(&d);
    assert_eq!(l.width, 4);
    assert_eq!(l.height, 9);
    assert!(l.participant_layouts.is_empty());
}

#[test]
fn canvas_starts_blank_and_keeps_writes() {
    let mut c = Canvas::new(3, 2);
    assert_eq!(c.to_string(), "   \n   ");
    c.set_char(0, 0, 'a');
    c.set_char(2, 1, 'z');
    assert_eq!(c.get_char(0, 0), 'a');
    assert_eq!(c.get_char(2, 1), 'z');
    assert_eq!(c.get_char(1, 1), ' ');
    assert_eq!(c.to_string(), "a  \n  z");
}

#[test]
fn canvas_one_by_one() {
    let mut c = Canvas::new(1, 1);
    c.set_char(0, 0, '#');
    assert_eq!(c.get_char(0, 0), '#');
    assert_eq!(c.to_string(), "#");
}

#[test]
fn canvas_draws_wide_glyph_in_one_cell() {
    let mut c = Canvas::new(4, 1);
    c.draw_text(1, 0, "日x");
    assert_eq!(c.to_string(), " 日x ");
}

#[test]
fn checked_layout_rejects_unknown_participant() {
    let d = diagram(&["A"], vec![edge("A", "Z", None)]);
    assert!(gram::layout::checked_sequence_layout(&d).is_none());
}

#[test]
fn checked_layout_matches_plain_layout() {
    let d = diagram(&["A", "B"], vec![edge("A", "B", Some("hi"))]);
    let l = gram::layout::checked_sequence_layout(&d).unwrap();
    assert_eq!(l.width, 11);
    assert_eq!(l.height, 12);
    assert_eq!(render(&l), render(&calculate_sequence_layout(&d)));
}
