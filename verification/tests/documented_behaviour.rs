use figo::canvas::Canvas;
use figo::diagrams::flowchart_shape::{node_dims, NodeShape};
use figo::diagrams::sequence::SequenceDiagram;
use figo::diagrams::state::layout::{layout_states, LayoutParams};
use figo::diagrams::state::sugiyama::assign_coordinates;
use figo::diagrams::state::types::{StateNode, StateType, Transition};
use figo::diagrams::state::StateDiagram;
use figo::diagrams::table::Table;
use figo::geom::{Rect, Size};
use figo::layout::node::{NodeBuilder, NodeId};
use figo::layout::routing::side_route_column;
use figo::render::connector::{Connector, ConnectorStyle, Marker};
use figo::render::surface::Surface;
use figo::render::widget::PaintContext;
use figo::diagrams::box_art::BoxArt;
use figo::style::{Charset, HAlign, LineStyle, Padding, VAlign};
use figo::text::word_wrap;

#[test]
fn extend_horizontal_keeps_existing_content() {
    let mut c = Canvas::new(3, 1);
    c.put_str(0, 0, "ab");
    c.extend_horizontal(2);
    assert_eq!(c.width(), 5);
    assert_eq!(c.height(), 1);
    assert_eq!(c.cell_char(0, 0), Some('a'));
    assert_eq!(c.cell_char(1, 0), Some('b'));
    assert_eq!(c.cell_char(4, 0), Some(' '));
}

#[test]
fn diamond_half_height_rounds_label_half_up() {
    assert_eq!(node_dims("Is valid?", NodeShape::Diamond, 80), (13, 13));
    assert_eq!(node_dims("ab", NodeShape::Diamond, 80), (7, 7));
}

#[test]
fn side_route_column_is_clamped_to_canvas() {
    let all = [Rect::new(0, 0, 10, 3)];
    assert_eq!(side_route_column(&all, 5), 4);
    assert_eq!(side_route_column(&all, 40), 12);
}

#[test]
fn node_title_is_first_content_row_by_default() {
    let n = NodeBuilder::new(NodeId(1), Charset::Ascii)
        .title("T")
        .row("hi")
        .padding(Padding { horizontal: 0, vertical: 0 })
        .build();
    assert!(!n.title_in_border);
    assert_eq!(n.rect.h, 4);
    let m = NodeBuilder::new(NodeId(2), Charset::Ascii)
        .title("T")
        .row("hi")
        .padding(Padding { horizontal: 0, vertical: 0 })
        .title_in_border()
        .build();
    assert!(m.title_in_border);
    assert_eq!(m.rect.h, 3);
}

#[test]
fn table_header_wider_than_width_is_kept_whole() {
    let headers = ["abcdefghij"];
    let out = Table::new(5, Charset::Ascii).headers(&headers).build().unwrap();
    assert!(out.contains("abcdefghij"), "header clipped:\n{out}");
}

#[test]
fn sequence_label_never_covers_middle_lifeline() {
    let label = "a fairly long message label that must wrap between lanes";
    let out = SequenceDiagram::new(60, Charset::Ascii)
        .add_participant("A")
        .add_participant("B")
        .add_participant("C")
        .add_message("A", "C", label)
        .build()
        .unwrap();
    for word in label.split(' ') {
        assert!(out.contains(word), "word '{word}' lost:\n{out}");
    }
    // Every row below the participant boxes keeps all three lifelines.
    for row in out.lines().skip(3) {
        if row.chars().any(|c| c.is_alphabetic()) {
            assert!(row.matches('|').count() >= 3, "lifeline covered:\n{out}");
        }
    }
}

fn simple(id: &str, label: &str) -> StateNode {
    StateNode { id: id.into(), label: label.into(), state_type: StateType::Simple }
}

#[test]
fn layout_states_keeps_declaration_order() {
    let states = vec![simple("b", "B"), simple("a", "A")];
    let transitions = vec![Transition { from: "a".into(), to: "b".into(), label: None }];
    let r = layout_states(&states, &transitions, None, 80, &LayoutParams::default());
    assert_eq!(r.len(), 2);
    assert_eq!(r[0].id, "b");
    assert_eq!(r[1].id, "a");
    assert!(r[1].rect.y < r[0].rect.y, "a is the source, one layer up");
}

#[test]
fn long_state_label_wraps_at_box_budget() {
    let states = vec![simple("a", &"x".repeat(60))];
    let r = layout_states(&states, &[], None, 80, &LayoutParams::default());
    assert_eq!(r[0].rect.w, 32);
    assert_eq!(r[0].rect.h, 4);
    let out = StateDiagram::new(80, Charset::Ascii).add_state(simple("a", &"x".repeat(60))).build().unwrap();
    assert_eq!(out.matches('x').count(), 60, "label characters lost:\n{out}");
}

#[test]
fn assign_coordinates_keeps_min_gap_in_each_layer() {
    let layers = vec![vec![0, 1], vec![2, 3]];
    let adj = vec![vec![3], vec![], vec![], vec![]];
    let sizes = vec![Size::new(14, 3); 4];
    let x = assign_coordinates(&layers, &adj, &sizes, 6, 80, 0);
    assert!(x[1] >= x[0] + 14 + 6, "{x:?}");
    assert!(x[3] >= x[2] + 14 + 6, "{x:?}");
}

#[test]
fn plain_marker_draws_no_arrowhead() {
    let mut canvas = Canvas::new(20, 10);
    let style = ConnectorStyle::new(LineStyle::Simple, Marker::Plain, Charset::Ascii);
    let c = Connector::new(Rect::new(2, 0, 5, 3), Rect::new(2, 7, 5, 3), style);
    {
        let mut s = Surface::new(&mut canvas);
        c.paint(&PaintContext { charset: Charset::Ascii, color: false }, &mut s);
    }
    let out = canvas.render(false);
    let rows: Vec<&str> = out.lines().collect();
    assert_eq!(rows[3].chars().nth(4), Some('|'));
    assert!(!out.contains('v'), "arrowhead drawn:\n{out}");
}

#[test]
fn word_wrap_breaks_greedily() {
    assert_eq!(word_wrap("hello world foo", 8), vec!["hello", "world", "foo"]);
    assert_eq!(word_wrap("supercalifragilistic", 5), vec!["super", "calif", "ragil", "istic"]);
    assert_eq!(word_wrap("aa bb cc", 5), vec!["aa bb", "cc"]);
}

#[test]
fn table_shrinks_data_columns_to_the_width() {
    let rows = vec![vec!["abcdefghij"]];
    let out = Table::new(5, Charset::Ascii).rows(&rows).build().unwrap();
    for line in out.lines() {
        assert!(line.chars().count() <= 5, "line wider than 5:\n{out}");
    }
    let headers = ["Name", "Description"];
    let rows = vec![vec!["a", "a rather long description of the thing"]];
    let out = Table::new(30, Charset::Ascii).headers(&headers).rows(&rows).build().unwrap();
    for line in out.lines() {
        assert!(line.chars().count() <= 30, "line wider than 30:\n{out}");
    }
    assert!(out.contains("Name") && out.contains("Description"), "header cut:\n{out}");
}

#[test]
fn bottom_aligned_content_stays_inside_a_titled_box() {
    let out = BoxArt::new(7, Charset::Ascii)
        .title(Some("abcd"))
        .content(Some("x"))
        .padding(0, 0)
        .align(HAlign::Left, VAlign::Bottom)
        .build()
        .unwrap();
    let lines: Vec<&str> = out.lines().collect();
    assert_eq!(lines.len(), 4, "{out}");
    assert_eq!(lines[3], "+-----+", "{out}");
    assert!(lines[1].contains('x') || lines[2].contains('x'), "{out}");
}

#[test]
fn node_drawing_stays_inside_its_rect() {
    let mut c = Canvas::new(16, 8);
    for y in 0..8 {
        c.put_str(0, y, "################");
    }
    let mut n = NodeBuilder::new(NodeId(7), Charset::Ascii)
        .title("Heading")
        .title_in_border()
        .row("some rather long text")
        .padding(Padding { horizontal: 0, vertical: 0 })
        .build();
    n.rect = Rect::new(3, 2, 8, 4);
    n.render(&mut c);
    for y in 0..8usize {
        for x in 0..16usize {
            let inside = (3..11).contains(&x) && (2..6).contains(&y);
            if !inside {
                assert_eq!(c.cell_char(x, y), Some('#'), "cell ({}, {}) changed", x, y);
            }
        }
    }
    assert_eq!(c.cell_char(6, 2), Some('H'));
    assert_eq!(c.cell_char(4, 3), Some('s'));
    assert_eq!(c.cell_char(4, 4), Some('r'));
}

