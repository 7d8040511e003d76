use figo::diagrams::state::sugiyama::{assign_coordinates, compute_column_gaps, reduce_crossings};
use figo::diagrams::state::types::Transition;
use figo::geom::Size;

#[test]
fn reduce_crossings_empty() {
    let result = reduce_crossings(&[], &[], &[]);
    assert!(result.is_empty());
}

#[test]
fn assign_coordinates_single_node() {
    let sizes = vec![Size::new(14, 3)];
    let layers = vec![vec![0]];
    let x = assign_coordinates(&layers, &[], &sizes, 6, 80, 0);
    assert_eq!(x.len(), 1);
    assert!(x[0] < 80);
}

#[test]
fn assign_coordinates_linear_chain_aligned() {
    let sizes = vec![Size::new(14, 3), Size::new(14, 3), Size::new(14, 3)];
    let layers = vec![vec![0], vec![1], vec![2]];
    let adj = vec![vec![1], vec![2], vec![]];
    let x = assign_coordinates(&layers, &adj, &sizes, 6, 80, 0);
    let cx0 = x[0] + sizes[0].w / 2;
    let cx1 = x[1] + sizes[1].w / 2;
    let cx2 = x[2] + sizes[2].w / 2;
    assert_eq!(cx0, cx1, "A and B should be aligned: {} vs {}", cx0, cx1);
    assert_eq!(cx1, cx2, "B and C should be aligned: {} vs {}", cx1, cx2);
}

#[test]
fn assign_coordinates_fork_children_distinct() {
    let sizes = vec![Size::new(14, 3), Size::new(14, 3), Size::new(14, 3)];
    let layers = vec![vec![0], vec![1, 2]];
    let adj = vec![vec![1, 2], vec![], vec![]];
    let x = assign_coordinates(&layers, &adj, &sizes, 6, 80, 0);
    assert_ne!(x[1], x[2], "fork children should be at different x");
}

#[test]
fn crossing_pair_is_uncrossed() {
    // 0 -> 3 and 1 -> 2 cross when the lower layer is [2, 3]; the
    // median sweep swaps it to [3, 2].
    let layers = vec![vec![0, 1], vec![2, 3]];
    let adj = vec![vec![3], vec![2], vec![], vec![]];
    let preds = vec![vec![], vec![], vec![1], vec![0]];
    let out = reduce_crossings(&layers, &adj, &preds);
    assert_eq!(out.len(), 2);
    let mut l0 = out[0].clone();
    l0.sort();
    assert_eq!(l0, vec![0, 1]);
    // The best ordering has no crossing left.
    let upper = &out[0];
    let lower = &out[1];
    let pos = |s: &Vec<usize>, n: usize| s.iter().position(|&v| v == n).unwrap();
    let a = (pos(upper, 0), pos(lower, 3));
    let b = (pos(upper, 1), pos(lower, 2));
    assert!((a.0 < b.0) == (a.1 < b.1), "edges still cross: {out:?}");
}

#[test]
fn coordinates_pack_a_layer_with_the_gap() {
    // Two unconnected nodes in one layer: 10 wide each, gap 4, centered
    // in 40 columns: 24 wide in all, 8 columns in.
    let sizes = vec![Size::new(10, 3), Size::new(10, 3)];
    let layers = vec![vec![0, 1]];
    let x = assign_coordinates(&layers, &[vec![], vec![]], &sizes, 4, 40, 0);
    assert_eq!(x, vec![8, 22]);
}

#[test]
fn column_gaps_widen_for_long_labels_only() {
    let sizes = vec![Size::new(10, 3), Size::new(10, 3), Size::new(10, 3)];
    let ids = vec![("a".to_string(), 0), ("b".to_string(), 1), ("c".to_string(), 2)];
    let short = vec![Transition { from: "a".into(), to: "b".into(), label: Some("hello".into()) }];
    let mut x = vec![0, 20, 40];
    compute_column_gaps(&mut x, &short, &ids, &sizes, 6);
    assert_eq!(x, vec![0, 20, 40]);
    // 19 columns of label need 23 free; 10 are free, so b and everything
    // right of it move 13 columns.
    let long = vec![Transition { from: "a".into(), to: "b".into(), label: Some("a much longer label".into()) }];
    let mut y = vec![0, 20, 40];
    compute_column_gaps(&mut y, &long, &ids, &sizes, 6);
    assert_eq!(y, vec![0, 33, 53]);
    // Unlabelled transitions ask for the minimum gap; a self-transition
    // and an unknown id ask for nothing.
    let plain = vec![
        Transition { from: "b".into(), to: "c".into(), label: None },
        Transition { from: "c".into(), to: "c".into(), label: Some("loop".into()) },
        Transition { from: "a".into(), to: "zz".into(), label: Some("x".repeat(50)) },
    ];
    let mut z = vec![0, 20, 32];
    compute_column_gaps(&mut z, &plain, &ids, &sizes, 6);
    assert_eq!(z, vec![0, 20, 36]);
}

