use figo::diagrams::flowchart::{FlowNode, Flowchart, Layout};
use figo::diagrams::flowchart_shape::NodeShape;
use figo::error::FigoError;
use figo::style::Charset;

fn node(id: &str, label: &str, shape: NodeShape, position: Option<(usize, usize)>) -> FlowNode {
    FlowNode { id: id.into(), label: label.into(), shape, position }
}

#[test]
fn test_simple_flowchart() {
    let fc = Flowchart::new(80, Charset::Unicode)
        .add_node(node("a", "Start", NodeShape::Rounded, None))
        .add_node(node("b", "End", NodeShape::Rounded, None))
        .connect("a", "b", None);
    let out = fc.build().unwrap();
    assert!(out.contains("Start"));
    assert!(out.contains("End"));
}

#[test]
fn test_empty_nodes() {
    assert!(Flowchart::new(80, Charset::Unicode).build().is_err());
}

#[test]
fn test_diamond_shape_renders() {
    let fc = Flowchart::new(80, Charset::Unicode)
        .add_node(node("start", "Start", NodeShape::Rounded, None))
        .add_node(node("decision", "Is valid?", NodeShape::Diamond, None))
        .add_node(node("end", "End", NodeShape::Rounded, None))
        .connect("start", "decision", None)
        .connect("decision", "end", Some("yes"));
    let out = fc.build().unwrap();
    assert!(out.contains("Is valid?"), "diamond label missing:\n{out}");
    assert!(out.contains('^'), "diamond top apex missing:\n{out}");
    assert!(out.contains('v'), "diamond bottom apex missing:\n{out}");
}

#[test]
fn test_back_edge_routes_via_side() {
    let fc = Flowchart::new(80, Charset::Unicode)
        .add_node(node("start", "Start", NodeShape::Rounded, None))
        .add_node(node("process", "Process", NodeShape::Rectangle, None))
        .add_node(node("decision", "Valid?", NodeShape::Diamond, None))
        .connect("start", "process", None)
        .connect("process", "decision", None)
        .connect("decision", "process", Some("no"));
    let out = fc.build().unwrap();
    assert!(out.contains("no"), "back-edge label 'no' missing:\n{out}");
}

#[test]
fn test_fork_riding_label_no_char_loss() {
    let fc = Flowchart::new(60, Charset::Ascii)
        .add_node(node("A", "A", NodeShape::Rectangle, None))
        .add_node(node("X", "X", NodeShape::Rectangle, None))
        .add_node(node("B", "B", NodeShape::Rectangle, None))
        .add_node(node("C", "C", NodeShape::Rectangle, None))
        .connect("A", "C", Some("AAAAAAAAAAAAAAAA"))
        .connect("A", "B", Some("BBBBBBBBBBBBBB"))
        .connect("A", "X", None)
        .connect("X", "C", None);
    let out = fc.build().unwrap();
    assert!(out.matches('A').count() >= 17, "riding label A chars lost:\n{out}");
    assert!(out.matches('B').count() >= 15, "corridor label B chars lost:\n{out}");
    for line in out.lines() {
        if line.contains("AAAA") {
            assert!(!line.contains('B'), "labels interleaved on one row:\n{line}");
        }
    }
}

fn three_node_stack() -> Flowchart {
    Flowchart::new(40, Charset::Unicode)
        .layout(Layout::Manual)
        .add_node(node("A", "A", NodeShape::Rectangle, Some((17, 1))))
        .add_node(node("B", "B", NodeShape::Rectangle, Some((17, 9))))
        .add_node(node("C", "C", NodeShape::Rectangle, Some((17, 17))))
        .connect("A", "C", None)
}

#[test]
fn test_intermediate_node_survives_connector() {
    let out = three_node_stack().build().unwrap();
    for label in ['A', 'B', 'C'] {
        assert!(out.contains(label), "node label {label:?} missing:\n{out}");
    }
    for glyph in ['┌', '┐', '└', '┘'] {
        assert!(out.contains(glyph), "rectangle border glyph {glyph:?} missing:\n{out}");
    }
}

#[test]
fn test_multi_branch_places_children_side_by_side() {
    let fc = Flowchart::new(80, Charset::Unicode)
        .add_node(node("a", "A", NodeShape::Rounded, None))
        .add_node(node("b", "B", NodeShape::Rounded, None))
        .add_node(node("c", "C", NodeShape::Rounded, None))
        .connect("a", "b", None)
        .connect("a", "c", None);
    let out = fc.build().unwrap();
    assert!(out.contains("B"), "child B missing:\n{out}");
    assert!(out.contains("C"), "child C missing:\n{out}");
}

#[test]
fn test_cyclic_layout_renders_without_infinite_loop() {
    let fc = Flowchart::new(80, Charset::Unicode)
        .add_node(node("a", "A", NodeShape::Rounded, None))
        .add_node(node("b", "B", NodeShape::Rounded, None))
        .add_node(node("c", "C", NodeShape::Rounded, None))
        .connect("a", "b", None)
        .connect("b", "a", Some("retry"))
        .connect("b", "c", None);
    let out = fc.build().unwrap();
    assert!(out.contains("A"), "node A missing:\n{out}");
    assert!(out.contains("B"), "node B missing:\n{out}");
    assert!(out.contains("C"), "node C missing:\n{out}");
    assert!(out.contains("retry"), "back-edge label missing:\n{out}");
}

#[test]
fn test_arrowhead_points_down() {
    let fc = Flowchart::new(80, Charset::Unicode)
        .add_node(node("a", "A", NodeShape::Rounded, None))
        .add_node(node("b", "B", NodeShape::Rounded, None))
        .connect("a", "b", None);
    let out = fc.build().unwrap();
    assert!(out.contains('↓'), "expected downward arrowhead ↓:\n{out}");
}

#[test]
fn test_long_forward_edge_label_wraps() {
    let long_label = "开始执行驱动注册流程并等待总线回调返回结果";
    let fc = Flowchart::new(80, Charset::Unicode)
        .add_node(node("a", "Start", NodeShape::Rounded, None))
        .add_node(node("b", "End", NodeShape::Rounded, None))
        .connect("a", "b", Some(long_label));
    let out = fc.build().unwrap();
    for ch in long_label.chars() {
        assert!(out.contains(ch), "label char '{ch}' missing:\n{out}");
    }
}

#[test]
fn test_diamond_wider_than_canvas_renders() {
    let long_label: String = "a".repeat(59);
    let fc = Flowchart::new(40, Charset::Ascii)
        .add_node(node("d", &long_label, NodeShape::Diamond, None));
    let out = fc.build().unwrap();
    assert_eq!(out.matches('a').count(), 59, "label chars lost:\n{out}");
}

#[test]
fn test_narrow_corridor_label_lines_not_lost() {
    let label = "abcdefghijklmno";
    let fc = Flowchart::new(60, Charset::Ascii)
        .add_node(node("a", "A", NodeShape::Rounded, None))
        .add_node(node("b", "B", NodeShape::Rounded, None))
        .add_node(node("c", "C", NodeShape::Rounded, None))
        .connect("a", "b", None)
        .connect("a", "c", Some(label));
    let out = fc.build().unwrap();
    for ch in label.chars() {
        assert!(out.contains(ch), "label char '{ch}' missing:\n{out}");
    }
}

fn converging_flowchart() -> Flowchart {
    let wide: String = "w".repeat(40);
    Flowchart::new(100, Charset::Ascii)
        .add_node(node("d1", "d1?", NodeShape::Diamond, None))
        .add_node(node("d2", "d2?", NodeShape::Diamond, None))
        .add_node(node("wide", &wide, NodeShape::Rectangle, None))
        .add_node(node("d3", "d3?", NodeShape::Diamond, None))
        .add_node(node("pass", "pass", NodeShape::Rounded, None))
        .add_node(node("fail", "fail", NodeShape::Rounded, None))
        .connect("d1", "d2", None)
        .connect("d2", "wide", None)
        .connect("wide", "d3", None)
        .connect("d3", "pass", Some("yes"))
        .connect("d3", "fail", Some("no"))
        .connect("d1", "fail", Some("no"))
        .connect("d2", "fail", Some("no"))
}

#[test]
fn test_converging_detoured_edges_keep_labels() {
    let out = converging_flowchart().build().unwrap();
    assert_eq!(out.matches("no").count(), 3, "all three no-edge labels must render:\n{out}");
    assert_eq!(out.matches("yes").count(), 1, "the yes label must render:\n{out}");
    let rows_with_no = out.lines().filter(|l| l.contains("no")).count();
    assert_eq!(rows_with_no, 3, "the three no labels must sit on separate rows:\n{out}");
}

#[test]
fn test_long_forward_edge_side_routes_clean() {
    let out = converging_flowchart().build().unwrap();
    assert!(!out.contains("/|\\"), "vertical line pierces a diamond top:\n{out}");
    assert!(!out.contains("\\|/"), "vertical line pierces a diamond bottom:\n{out}");
    let rail_rows = out.lines().filter(|l| l.contains("+no")).count();
    assert_eq!(rail_rows, 2, "two side-rail no labels expected:\n{out}");
    assert!(out.contains("fail |<"), "east entry into fail missing:\n{out}");
}

#[test]
fn test_fallback_pierce_hidden_by_diamond_fill() {
    let fc = Flowchart::new(60, Charset::Ascii)
        .layout(Layout::Manual)
        .add_node(node("s", "S", NodeShape::Rectangle, Some((15, 1))))
        .add_node(node("x", "X?", NodeShape::Diamond, Some((15, 6))))
        .add_node(node("t", "T", NodeShape::Rectangle, Some((15, 12))))
        .add_node(node("blk", "BLK", NodeShape::Rectangle, Some((26, 12))))
        .connect("s", "t", Some("edge label"))
        .connect("s", "blk", None);
    let out = fc.build().unwrap();
    assert!(out.contains("X?"), "diamond missing:\n{out}");
    assert!(
        !out.contains("/|\\") && !out.contains("\\|/"),
        "fallback line shows through the diamond interior:\n{out}"
    );
    assert!(out.contains("edge label"), "edge label lost:\n{out}");
}

#[test]
fn manual_layout_without_position_is_refused() {
    let err = Flowchart::new(40, Charset::Ascii)
        .layout(Layout::Manual)
        .add_node(node("a", "A", NodeShape::Rectangle, Some((1, 1))))
        .add_node(node("b", "B", NodeShape::Rectangle, None))
        .build()
        .unwrap_err();
    match err {
        FigoError::MissingFields(m) => assert_eq!(m, "node 'b' has no position in manual layout"),
        other => panic!("unexpected error {other:?}"),
    }
}
