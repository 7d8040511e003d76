use figo::diagrams::sequence::{SequenceDiagram, LANE_GAP};
use figo::error::FigoError;
use figo::style::Charset;

#[test]
fn test_simple_sequence() {
    let sd = SequenceDiagram::new(100, Charset::Unicode)
        .add_participant("Client")
        .add_participant("Server")
        .add_message("Client", "Server", "GET /api");
    let out = sd.build().unwrap();
    assert!(out.contains("Client"));
    assert!(out.contains("Server"));
    assert!(out.contains("GET /api"));
}

#[test]
fn test_long_message_label_wraps() {
    let long_label = "write系统调用写入数据到文件描述符并等待缓冲区刷新完成";
    let sd = SequenceDiagram::new(60, Charset::Ascii)
        .add_participant("用户进程")
        .add_participant("内核VFS")
        .add_message("用户进程", "内核VFS", long_label);
    let out = sd.build().unwrap();
    for ch in long_label.chars() {
        assert!(out.contains(ch), "label char '{ch}' missing:\n{out}");
    }
}

#[test]
fn test_no_participants() {
    assert!(SequenceDiagram::new(80, Charset::Unicode).build().is_err());
}

#[test]
fn test_no_messages() {
    assert!(SequenceDiagram::new(80, Charset::Unicode).add_participant("A").build().is_err());
}

#[test]
fn test_lane_gap_between_adjacent_boxes() {
    // Two participants of equal name length — verify there is a 2-cell
    // gap between the two rendered boxes (count consecutive spaces).
    let sd = SequenceDiagram::new(40, Charset::Unicode)
        .add_participant("A")
        .add_participant("B")
        .add_message("A", "B", "m");
    let out = sd.build().unwrap();
    let first_line = out.lines().next().unwrap();
    // The top row contains both box top borders; between the two `╭`
    // characters there must be at least one space (border end to start),
    // and the middle row has the participant names. Check the row with
    // the *top border* (`╭...─...╮╭...─...╮`) contains a 2-cell gap.
    let chars: Vec<char> = first_line.chars().collect();
    let first_close = chars.iter().position(|&c| c == '╮').expect("first box right border");
    let second_open = chars
        .iter()
        .enumerate()
        .skip(first_close + 1)
        .find(|&(_, &c)| c == '╭')
        .map(|(i, _)| i)
        .expect("second box left border");
    let gap = second_open.saturating_sub(first_close + 1);
    // Box left-border starts one cell into the lane (LANE_GAP_HALF = 1),
    // so the actual boxed border-to-border gap is `LANE_GAP`.
    assert!(gap >= LANE_GAP, "expected ≥ {LANE_GAP}-cell gap, got {gap}: {first_line:?}");
}
#[test]
fn test_arrow_does_not_pierce_lifeline() {
    // Regression: the arrowhead is the corridor cell that visually
    // touches the target lifeline. A incorrect router would either
    // (a) leave a body glyph on top of the lifeline or (b) fail to
    // reach the lifeline at all. Both directions and both charsets
    // are exercised:
    //   * A → B : arrowhead (▶ / >) is the right corridor cell, the
    //              target lifeline must be IMMEDIATELY after it.
    //   * B → A : arrowhead (◀ / <) is the left corridor cell, the
    //              target lifeline must be IMMEDIATELY before it.
    for charset in [Charset::Unicode, Charset::Ascii] {
        let (lifeline, gt_arrow, lt_arrow) = match charset {
            Charset::Unicode => ('│', '▶', '◀'),
            Charset::Ascii => ('|', '>', '<'),
        };

        // A → B: arrow flows rightward; arrowhead sits in the right
        // corridor cell and is followed by the target lifeline.
        let out_a_to_b = SequenceDiagram::new(60, charset)
            .add_participant("A")
            .add_participant("B")
            .add_message("A", "B", "hi")
            .build()
            .unwrap();
        assert_arrow_touches_target_lifeline(
            &out_a_to_b,
            gt_arrow,
            lifeline,
            /*reversed=*/ false,
        );

        // B → A: arrow flows leftward; arrowhead sits in the left
        // corridor cell and is preceded by the target lifeline.
        let out_b_to_a = SequenceDiagram::new(60, charset)
            .add_participant("A")
            .add_participant("B")
            .add_message("B", "A", "hi")
            .build()
            .unwrap();
        assert_arrow_touches_target_lifeline(
            &out_b_to_a,
            lt_arrow,
            lifeline,
            /*reversed=*/ true,
        );
    }
}

#[test]
fn test_self_label_never_covers_lifeline() {
    // Regression: self-message labels used a fixed wrap width
    // unrelated to lane geometry, spilling across neighbouring
    // lifelines (Label layer > Connector layer — the covered `|`
    // vanished). Lanes now widen for the label (within the budget),
    // and labels wrap to their lane region.
    let label = "一个很长很长的自环标签测试用例";
    let out = SequenceDiagram::new(120, Charset::Ascii)
        .add_participant("A1")
        .add_participant("A2")
        .add_participant("A3")
        .add_participant("A4")
        .add_participant("A5")
        .add_message("A1", "A1", label)
        .build()
        .unwrap();
    // Every label row must still show every other lifeline.
    let lifeline_rows: Vec<&str> = out.lines().skip(3).filter(|l| l.contains('|')).collect();
    for row in lifeline_rows {
        if row.contains("自环") || row.contains("标签") {
            let pipes = row.matches('|').count();
            assert!(pipes >= 4, "lifeline covered by label ({pipes} pipes):\n{out}");
        }
    }
    for ch in label.chars() {
        assert!(out.contains(ch), "label char '{ch}' lost:\n{out}");
    }
}

#[test]
fn test_last_lane_self_label_stays_right() {
    // Regression: the last lane's self label used to be clamped
    // against the canvas edge and pushed LEFT across its own
    // lifeline. The lane model now reserves a right margin for it
    // (within the display budget).
    let label = "ibv_post_recv 预挂RQ";
    let out = SequenceDiagram::new(72, Charset::Ascii)
        .label_budget(160)
        .add_participant("App 发送方")
        .add_participant("NIC 发送方")
        .add_participant("NIC 接收方")
        .add_participant("App 接收方")
        .add_message("App 接收方", "App 接收方", label)
        .build()
        .unwrap();
    // With budget for the margin the label fits on one line, right
    // of its own lifeline, and no lifeline is covered.
    let label_row = out.lines().find(|l| l.contains("ibv_post_recv")).unwrap();
    assert_eq!(label_row.matches('|').count(), 4, "lifeline covered:\n{out}");

    // Without budget headroom the label wraps inside its region —
    // tight, but every character survives.
    let tight = SequenceDiagram::new(72, Charset::Ascii)
        .add_participant("App 发送方")
        .add_participant("NIC 发送方")
        .add_participant("NIC 接收方")
        .add_participant("App 接收方")
        .add_message("App 接收方", "App 接收方", label)
        .build()
        .unwrap();
    for ch in label.chars() {
        assert!(tight.contains(ch), "label char '{ch}' lost:\n{tight}");
    }
}

#[test]
fn test_long_participant_name_does_not_cover_neighbor() {
    // Regression: lanes were capped below the structural name width,
    // so a 44-column name overflowed its box onto the neighbour's
    // border. Names are structural: the lane grows to fit.
    let long_name: String = "n".repeat(44);
    let out = SequenceDiagram::new(120, Charset::Ascii)
        .add_participant(&long_name)
        .add_participant("B")
        .add_message(&long_name, "B", "m")
        .build()
        .unwrap();
    assert_eq!(out.matches('n').count(), 44, "name chars lost:\n{out}");
    // The name must stay inside its own box: every row of the header
    // still shows both boxes' borders.
    for (i, line) in out.lines().take(3).enumerate() {
        let trimmed = line.trim_end();
        assert!(
            trimmed.ends_with('+') || trimmed.ends_with('|'),
            "header row {i} right border eaten:\n{out}"
        );
    }
}

#[test]
fn test_label_beyond_budget_wraps_without_loss() {
    // Labels that cannot fit within the display budget wrap inside
    // their lane region — never lost, never covering a lifeline.
    let label: String = "x".repeat(200);
    let out = SequenceDiagram::new(60, Charset::Ascii)
        .label_budget(60)
        .add_participant("A")
        .add_participant("B")
        .add_message("A", "B", &label)
        .build()
        .unwrap();
    assert_eq!(out.matches('x').count(), 200, "label chars lost:\n{out}");
}

#[test]
fn test_last_lane_self_label_never_spills_past_canvas() {
    // Regression: with a very narrow width the
    // last lane's self-label region can shrink to one column; the
    // wrap minimum (2) would then push a line's last character past
    // the canvas edge, where put_layered silently drops it. The
    // canvas structurally reserves loop columns + wrap minimum for
    // a last-lane self label, so every character survives.
    let label = "ab";
    let out = SequenceDiagram::new(18, Charset::Ascii)
        .add_participant("P1")
        .add_participant("P2")
        .add_message("P2", "P2", label)
        .build()
        .unwrap();
    assert!(out.contains("ab"), "label lost:\n{out}");
}

/// Asserts the arrowhead glyph in the first message's arrow row is
/// exactly adjacent to the target lifeline glyph. The corridor flow
/// direction flips the perspective: a left-to-right arrow places
/// the arrowhead in the right corridor cell with the target
/// lifeline cell next to it on the right; a right-to-left arrow
/// places the arrowhead cell against the target lifeline on the
/// left.
fn assert_arrow_touches_target_lifeline(
    rendered: &str,
    arrow_glyph: char,
    target_lifeline: char,
    reversed: bool,
) {
    // Arrow row index = header_height (3) + 1 (gap) + num_lines (1 for "hi")
    // = 5 for the first message (label is 1 line, drawn above the arrow).
    let arrow_row =
        rendered.lines().nth(5).unwrap_or_else(|| panic!("missing row 5: {rendered:?}"));
    assert!(
        arrow_row.contains(arrow_glyph),
        "arrowhead {arrow_glyph:?} missing from {arrow_row:?}",
    );
    let pos = arrow_row.find(arrow_glyph).unwrap();
    if reversed {
        let prev = arrow_row[..pos].chars().last();
        assert_eq!(
            prev,
            Some(target_lifeline),
            "expected {target_lifeline:?} immediately before {arrow_glyph:?}; \
             row={arrow_row:?}",
        );
    } else {
        let next = arrow_row[pos + arrow_glyph.len_utf8()..].chars().next();
        assert_eq!(
            next,
            Some(target_lifeline),
            "expected {target_lifeline:?} immediately after {arrow_glyph:?}; \
             row={arrow_row:?}",
        );
    }
}


#[test]
fn sequence_errors_are_exact() {
    match SequenceDiagram::new(80, Charset::Unicode).build() {
        Err(FigoError::MissingFields(m)) => assert_eq!(m, "no participants specified"),
        other => panic!("unexpected {other:?}"),
    }
    match SequenceDiagram::new(80, Charset::Unicode).add_participant("A").build() {
        Err(FigoError::MissingFields(m)) => assert_eq!(m, "no messages specified"),
        other => panic!("unexpected {other:?}"),
    }
    // Empty names and a tiny width leave boxes 4 cells wide.
    match SequenceDiagram::new(4, Charset::Ascii)
        .add_participant("")
        .add_message("", "", "")
        .build()
    {
        Err(FigoError::InvalidDimensions(m)) => {
            assert_eq!(m, "width too small for participant names")
        }
        other => panic!("unexpected {other:?}"),
    }
}

#[test]
fn sequence_two_lanes_exact_header() {
    // Width 40 over 2 lanes: 20-column lanes, boxes 18 wide from column 1
    // and 21, lifelines at columns 9 and 29.
    let out = SequenceDiagram::new(40, Charset::Ascii)
        .add_participant("A")
        .add_participant("B")
        .add_message("A", "B", "m")
        .build()
        .unwrap();
    let lines: Vec<&str> = out.lines().collect();
    assert_eq!(lines[0], " +----------------+  +----------------+");
    assert_eq!(lines[1], " |       A        |  |       B        |");
    // Label row above the arrow, centered between the lifelines.
    let row4: Vec<char> = lines[4].chars().collect();
    assert_eq!(row4[9], '|');
    assert_eq!(row4[29], '|');
    assert_eq!(row4[19], 'm');
    let row5: Vec<char> = lines[5].chars().collect();
    assert_eq!(row5[28], '>');
}
