use figo::layout::riding::{
    allocate_riding_rows, beside_line_label_avail, corridor_label_avail, corridor_label_block_top,
    riding_placement_cols, RidingCandidate,
};

#[test]
fn ladder_rides_line_between_sibling_legs() {
    let (w, center) = riding_placement_cols(&[34, 50], 30, 80, 48);
    assert_eq!((w, center), (7, 30));
}

#[test]
fn ladder_fallback_centers_in_wider_span_excluding_the_line() {
    let (w, center) = riding_placement_cols(&[21], 20, 80, 58);
    assert_eq!(w, 20, "wider span is the left one (cols 0..20)");
    assert!(center < 20, "center must sit left of the leg column, got {center}");
}

#[test]
fn overlapping_riders_stack_in_declaration_order() {
    let (offsets, demand) = allocate_riding_rows(&[
        RidingCandidate { span_lo: 16, span_hi: 45, lines: 1 },
        RidingCandidate { span_lo: 38, span_hi: 62, lines: 2 },
    ]);
    assert_eq!(offsets, vec![Some(0), Some(1)]);
    assert_eq!(demand, 3);
}

#[test]
fn disjoint_riders_keep_centered_positions() {
    let (offsets, demand) = allocate_riding_rows(&[
        RidingCandidate { span_lo: 0, span_hi: 10, lines: 1 },
        RidingCandidate { span_lo: 20, span_hi: 30, lines: 3 },
    ]);
    assert_eq!(offsets, vec![None, None]);
    assert_eq!(demand, 3);
}

#[test]
fn transitive_overlap_forms_one_cluster() {
    let (offsets, demand) = allocate_riding_rows(&[
        RidingCandidate { span_lo: 0, span_hi: 10, lines: 1 },
        RidingCandidate { span_lo: 5, span_hi: 15, lines: 1 },
        RidingCandidate { span_lo: 12, span_hi: 22, lines: 2 },
    ]);
    assert_eq!(offsets, vec![Some(0), Some(1), Some(2)]);
    assert_eq!(demand, 4);
}

#[test]
fn two_clusters_and_a_solo() {
    let (offsets, demand) = allocate_riding_rows(&[
        RidingCandidate { span_lo: 0, span_hi: 5, lines: 2 },
        RidingCandidate { span_lo: 40, span_hi: 50, lines: 1 },
        RidingCandidate { span_lo: 3, span_hi: 8, lines: 2 },
        RidingCandidate { span_lo: 20, span_hi: 25, lines: 5 },
        RidingCandidate { span_lo: 45, span_hi: 60, lines: 1 },
    ]);
    assert_eq!(offsets, vec![Some(0), Some(0), Some(2), None, Some(1)]);
    assert_eq!(demand, 5);
    let (o, d) = allocate_riding_rows(&[]);
    assert!(o.is_empty());
    assert_eq!(d, 0);
}

#[test]
fn avail_helpers() {
    assert_eq!(corridor_label_avail(10, 80), 6);
    assert_eq!(corridor_label_avail(3, 80), 2);
    assert_eq!(corridor_label_avail(100, 30), 30);
    assert_eq!(beside_line_label_avail(10, 40), 28);
    assert_eq!(beside_line_label_avail(39, 40), 2);
    assert_eq!(corridor_label_block_top(10, 4, 3, 20), 8);
    assert_eq!(corridor_label_block_top(10, 4, 9, 20), 9);
    assert_eq!(corridor_label_block_top(10, 4, 0, 11), 8);
}
