use figo::diagrams::gantt::{GanttChart, GanttSection, GanttTask, TimeUnit};
use figo::error::FigoError;
use figo::style::Charset;
use unicode_width::UnicodeWidthStr;

fn task(name: &str, start: usize, duration: usize, progress: u8) -> GanttTask {
    GanttTask { name: name.into(), start, duration, progress, milestone: false, depends_on: None }
}

#[test]
fn test_simple_gantt() {
    let gc = GanttChart::new(80, Charset::Ascii, TimeUnit::Day, 14).add_section(GanttSection {
        label: "Sprint 1".into(),
        tasks: vec![
            GanttTask {
                name: "Task A".into(),
                start: 0,
                duration: 5,
                progress: 100,
                milestone: false,
                depends_on: None,
            },
            GanttTask {
                name: "Task B".into(),
                start: 5,
                duration: 7,
                progress: 50,
                milestone: false,
                depends_on: Some("Task A".into()),
            },
        ],
    });
    let out = gc.build().unwrap();
    assert!(out.contains("Sprint 1"));
    assert!(out.contains("Task A"));
}

#[test]
fn test_long_task_label_wraps_and_stays_in_column() {
    let long_name = "这是一个非常非常长的任务名称超过四十个字符需要换行处理的任务";
    let gc = GanttChart::new(80, Charset::Ascii, TimeUnit::Day, 14).add_section(GanttSection {
        label: "Sprint".into(),
        tasks: vec![GanttTask {
            name: long_name.into(),
            start: 0,
            duration: 5,
            progress: 100,
            milestone: false,
            depends_on: None,
        }],
    });
    let out = gc.build().unwrap();
    for ch in long_name.chars() {
        assert!(out.contains(ch), "label char '{ch}' missing:\n{out}");
    }
    let lines: Vec<&str> = out.lines().collect();
    for (i, line) in lines.iter().enumerate() {
        if i < 2 || i >= lines.len() - 1 {
            continue;
        }
        let w = UnicodeWidthStr::width(*line);
        assert!(w <= 82, "line {i} too wide ({w} cols):\n{out}");
    }
}

#[test]
fn gantt_without_tasks_is_missing_fields() {
    let empty = GanttChart::new(80, Charset::Ascii, TimeUnit::Day, 14);
    match empty.build() {
        Err(FigoError::MissingFields(m)) => assert_eq!(m, "no tasks specified"),
        other => panic!("unexpected: {other:?}"),
    }
    let no_tasks = GanttChart::new(80, Charset::Ascii, TimeUnit::Day, 14)
        .add_section(GanttSection { label: "Empty".into(), tasks: vec![] });
    assert!(matches!(no_tasks.build(), Err(FigoError::MissingFields(_))));
}

#[test]
fn gantt_bar_fill_and_scale_exact() {
    // Width 40: label column 10, 2 columns per unit over 10 units.
    let out = GanttChart::new(40, Charset::Ascii, TimeUnit::Day, 10)
        .add_task(task("A", 0, 5, 50))
        .build()
        .unwrap();
    let lines: Vec<&str> = out.lines().collect();
    assert_eq!(lines.len(), 5);
    assert_eq!(lines[0], "+----------+-------------------+");
    assert_eq!(lines[1], "|          |0 + + + + 5 + + + 9|");
    assert_eq!(lines[3], "|A         |#####.....         |");
}

#[test]
fn gantt_milestone_and_today_marker() {
    let mut m = task("M", 3, 1, 0);
    m.milestone = true;
    let out = GanttChart::new(40, Charset::Unicode, TimeUnit::Week, 10)
        .add_task(m)
        .today_marker(7)
        .build()
        .unwrap();
    let lines: Vec<&str> = out.lines().collect();
    let row: Vec<char> = lines[3].chars().collect();
    // Milestone at column 12 + 3 * 2; today marker at 12 + 7 * 2.
    assert_eq!(row[18], '◆');
    assert_eq!(row[26], '│');
    assert!(!lines[3].contains('█'));
}
