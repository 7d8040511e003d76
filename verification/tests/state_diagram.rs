use figo::diagrams::state::{StateDiagram, StateNode, StateType};
use figo::error::FigoError;
use figo::style::Charset;

fn state(id: &str, label: &str, state_type: StateType) -> StateNode {
    StateNode { id: id.into(), label: label.into(), state_type }
}

#[test]
fn test_simple_fsm() {
    let sd = StateDiagram::new(80, Charset::Unicode)
        .add_state(state("idle", "Idle", StateType::Simple))
        .add_state(state("done", "Done", StateType::Accepting))
        .initial("idle")
        .add_transition("idle", "done", Some("finish"));
    let out = sd.build().unwrap();
    assert!(out.contains("Idle"));
    assert!(out.contains("Done"));
    assert!(out.contains("finish"));
    assert!(out.matches('╭').count() >= 2, "accepting state needs outer and inner top-left corners");
}

#[test]
fn test_empty_states_is_error() {
    let result = StateDiagram::new(80, Charset::Unicode).build();
    assert!(result.is_err());
}

#[test]
fn test_accepting_state_has_double_border() {
    let out = StateDiagram::new(40, Charset::Unicode)
        .add_state(state("done", "Done", StateType::Accepting))
        .initial("done")
        .build()
        .unwrap();
    assert!(out.contains("Done"));
    let tl_count = out.chars().filter(|&c| c == '╭').count();
    assert!(tl_count >= 2, "accepting state needs double border, got {tl_count} top-left corners");
}

#[test]
fn test_long_transition_label_wraps() {
    let long_label = "初始化完成且所有校验检查均通过后进入正常运行状态";
    let out = StateDiagram::new(60, Charset::Unicode)
        .add_state(state("init", "初始化", StateType::Simple))
        .add_state(state("running", "运行中", StateType::Simple))
        .initial("init")
        .add_transition("init", "running", Some(long_label))
        .build()
        .unwrap();
    for ch in long_label.chars() {
        assert!(out.contains(ch), "label char '{ch}' missing:\n{out}");
    }
}

#[test]
fn empty_diagram_message() {
    match StateDiagram::new(80, Charset::Ascii).build() {
        Err(FigoError::MissingFields(m)) => assert_eq!(m, "no states specified"),
        other => panic!("unexpected {other:?}"),
    }
}

#[test]
fn ascii_initial_marker_and_self_loop() {
    let out = StateDiagram::new(40, Charset::Ascii)
        .add_state(state("idle", "Idle", StateType::Simple))
        .initial("idle")
        .add_transition("idle", "idle", Some("tick"))
        .build()
        .unwrap();
    // The initial arrow: a dot, a four-cell shaft, and `>`.
    assert!(out.contains("*────>"), "initial arrow missing:\n{out}");
    // The self-loop enters the box from the right with `<`.
    assert!(out.contains('<'), "self-loop arrowhead missing:\n{out}");
    assert!(out.contains("Idle"));
}

#[test]
fn transition_arrow_points_into_target() {
    let out = StateDiagram::new(60, Charset::Ascii)
        .add_state(state("a", "A", StateType::Simple))
        .add_state(state("b", "B", StateType::Simple))
        .add_transition("a", "b", Some("go"))
        .build()
        .unwrap();
    assert!(out.contains('v'), "downward arrowhead missing:\n{out}");
    assert!(out.contains("go"), "label missing:\n{out}");
}

#[test]
fn test_stacked_upward_labels_not_lost() {
    let out = StateDiagram::new(120, Charset::Unicode)
        .add_state(StateNode { id: "top".into(), label: "TOP".into(), state_type: StateType::Simple })
        .add_state(StateNode { id: "left".into(), label: "LEFT".into(), state_type: StateType::Simple })
        .add_state(StateNode { id: "right".into(), label: "RIGHT".into(), state_type: StateType::Simple })
        .initial("left")
        .add_transition("left", "top", Some("back_label_alpha_return"))
        .add_transition("right", "top", Some("back_label_beta_return"))
        .build()
        .unwrap();
    assert!(out.contains("back_label_alpha_return"), "full label lost or wrapped:\n{out}");
    assert!(out.contains("back_label_beta_return"), "full label lost or wrapped:\n{out}");
}

#[test]
fn self_loop_label_is_drawn_whole() {
    let label = "retry the request after a short backoff period";
    let out = StateDiagram::new(40, Charset::Ascii)
        .add_state(state("idle", "Idle", StateType::Simple))
        .add_transition("idle", "idle", Some(label))
        .build()
        .unwrap();
    for word in label.split(' ') {
        assert!(out.contains(word), "word '{word}' lost:\n{out}");
    }
}
