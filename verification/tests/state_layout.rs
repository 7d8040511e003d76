use figo::diagrams::state::layout::{assign_layers, detect_back_edges, layout_states, LayoutParams};
use figo::diagrams::state::types::{StateNode, StateType, Transition};

fn state(id: &str, label: &str) -> StateNode {
    StateNode { id: id.into(), label: label.into(), state_type: StateType::Simple }
}

fn accepting(id: &str, label: &str) -> StateNode {
    StateNode { id: id.into(), label: label.into(), state_type: StateType::Accepting }
}

#[test]
fn layout_empty_returns_empty() {
    let params = LayoutParams::default();
    let layouts = layout_states(&[], &[], None, 80, &params);
    assert!(layouts.is_empty());
}

#[test]
fn layout_single_state_is_centered() {
    let params = LayoutParams::default();
    let states = vec![state("a", "A")];
    let layouts = layout_states(&states, &[], None, 80, &params);
    assert_eq!(layouts.len(), 1);
    assert!(layouts[0].rect.x > params.left_margin);
    assert_eq!(layouts[0].rect.h, params.state_height);
}

#[test]
fn layout_two_states_different_layers() {
    let params = LayoutParams::default();
    let states = vec![state("a", "A"), state("b", "B")];
    let transitions = vec![Transition { from: "a".into(), to: "b".into(), label: None }];
    let layouts = layout_states(&states, &transitions, None, 80, &params);
    assert_eq!(layouts.len(), 2);
    assert!(layouts[0].rect.y < layouts[1].rect.y);
}

#[test]
fn layout_two_independent_states_same_layer() {
    let params = LayoutParams::default();
    let states = vec![state("a", "A"), state("b", "B")];
    let layouts = layout_states(&states, &[], None, 80, &params);
    assert_eq!(layouts.len(), 2);
    assert_eq!(layouts[0].rect.y, layouts[1].rect.y);
    assert!(layouts[1].rect.x > layouts[0].rect.x);
}

#[test]
fn layout_respects_canvas_width() {
    let params = LayoutParams::default();
    let states = vec![state("a", "A")];
    let layouts = layout_states(&states, &[], None, 40, &params);
    assert_eq!(layouts.len(), 1);
    assert!(layouts[0].rect.right() <= 40);
}

#[test]
fn layout_with_initial_reserves_left_margin() {
    let params = LayoutParams::default();
    let states = vec![state("a", "A")];
    let layouts = layout_states(&states, &[], Some("a"), 80, &params);
    assert_eq!(layouts.len(), 1);
    assert!(layouts[0].rect.x >= 5);
}

#[test]
fn layout_self_loop_still_positions_state() {
    let params = LayoutParams::default();
    let states = vec![state("a", "A")];
    let transitions =
        vec![Transition { from: "a".into(), to: "a".into(), label: Some("tick".into()) }];
    let layouts = layout_states(&states, &transitions, None, 80, &params);
    assert_eq!(layouts.len(), 1);
}

#[test]
fn layout_accepting_state_is_taller() {
    let params = LayoutParams::default();
    let layouts = layout_states(&[accepting("done", "Done")], &[], None, 80, &params);
    assert_eq!(layouts.len(), 1);
    assert_eq!(layouts[0].rect.h, params.state_height + params.accepting_extra_height);
}

#[test]
fn layout_exact_positions_of_a_chain_with_back_edge() {
    let params = LayoutParams::default();
    let states = vec![state("a", "A"), state("b", "B"), state("c", "C")];
    let transitions = vec![
        Transition { from: "a".into(), to: "b".into(), label: None },
        Transition { from: "b".into(), to: "c".into(), label: None },
        Transition { from: "c".into(), to: "a".into(), label: None },
    ];
    let layouts = layout_states(&states, &transitions, None, 80, &params);
    let ys: Vec<usize> = layouts.iter().map(|l| l.rect.y).collect();
    let ids: Vec<&str> = layouts.iter().map(|l| l.id.as_str()).collect();
    assert_eq!(ids, vec!["a", "b", "c"]);
    // Each state is 14 wide, centered in 80 columns; layers 6 rows apart.
    assert_eq!(ys, vec![2, 8, 14]);
    assert!(layouts.iter().all(|l| l.rect.x == 33 && l.rect.w == 14));
}

#[test]
fn layout_same_layer_row_is_centered_with_gaps() {
    let params = LayoutParams::default();
    let states = vec![state("a", "A"), state("b", "A much longer label")];
    let layouts = layout_states(&states, &[], Some("a"), 80, &params);
    // Widths 14 and 23, gap 6: total 43, start (80 - 43) / 2 = 18, plus 5.
    assert_eq!(layouts[0].rect.x, 23);
    assert_eq!(layouts[1].rect.x, 23 + 14 + 6);
    assert_eq!(layouts[1].rect.w, 23);
}

#[test]
fn search_order_and_back_edges_are_the_depth_first_ones() {
    // 0 -> 1 -> 2 -> 0 closes a cycle; 0 -> 2 is a forward edge.
    let adj = vec![vec![1, 2], vec![2], vec![0]];
    let (order, back) = detect_back_edges(3, &adj);
    assert_eq!(order, vec![2, 1, 0]);
    assert_eq!(back, vec![(2, 0)]);
    let layers = assign_layers(3, &adj, &order, &back);
    assert_eq!(layers, vec![0, 1, 2]);
}
