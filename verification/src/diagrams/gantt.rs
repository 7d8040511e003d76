//! Gantt charts: labelled task bars on a numbered time scale.
//!
//! The left column holds the section and task labels, wrapped to fit;
//! the right area has one column group per time unit. Sums and products
//! that would pass `usize::MAX` saturate.

use vstd::prelude::*;
use crate::canvas::{blank_view, Canvas, CanvasView, Layer};
use crate::diagrams::arrow::{sat_add, wraps_label};
use crate::diagrams::table::{mul_sat, sat_mul};
use crate::error::{FigoError, Result};
use crate::layout::routing::sat_sub;
use crate::style::{spec_glyphs, BorderGlyphs, BorderStyle, Charset};
use crate::text::{decimal, decimal_chars, push_spaces, spaces, views, wrap_label};
use crate::width::{chars_of, chars_width, seq_display_width, string_from_chars};

verus! {

/// Time unit of the scale.
#[derive(Debug, Clone, Copy, PartialEq, Eq, Structural)]
pub enum TimeUnit {
    Hour,
    Day,
    Week,
    Month,
}

/// One task: a bar from `start` lasting `duration` units, filled to
/// `progress` percent, or a single mark when it is a milestone.
#[derive(Debug, Clone)]
pub struct GanttTask {
    pub name: String,
    pub start: usize,
    pub duration: usize,
    pub progress: u8,
    pub milestone: bool,
    pub depends_on: Option<String>,
}

/// A labelled group of tasks.
#[derive(Debug, Clone)]
pub struct GanttSection {
    pub label: String,
    pub tasks: Vec<GanttTask>,
}

/// Builder for Gantt charts.
pub struct GanttChart {
    width: usize,
    charset: Charset,
    time_unit: TimeUnit,
    total_units: usize,
    sections: Vec<GanttSection>,
    today_offset: Option<usize>,
    color: bool,
}

/// A task with its texts as character sequences.
pub struct TaskSpec {
    pub name: Seq<char>,
    pub start: usize,
    pub duration: usize,
    pub progress: u8,
    pub milestone: bool,
    pub depends_on: Option<Seq<char>>,
}

/// A section with its texts as character sequences.
pub struct SectionSpec {
    pub label: Seq<char>,
    pub tasks: Seq<TaskSpec>,
}

/// The settings and contents of a chart.
pub struct GanttSpec {
    pub width: usize,
    pub charset: Charset,
    pub time_unit: TimeUnit,
    pub total_units: usize,
    pub sections: Seq<SectionSpec>,
    pub today_offset: Option<usize>,
    pub color: bool,
}

pub open spec fn task_spec(t: GanttTask) -> TaskSpec {
    TaskSpec {
        name: t.name@,
        start: t.start,
        duration: t.duration,
        progress: t.progress,
        milestone: t.milestone,
        depends_on: match t.depends_on {
            Some(d) => Some(d@),
            None => None,
        },
    }
}

pub open spec fn tasks_spec(ts: Seq<GanttTask>) -> Seq<TaskSpec> {
    Seq::new(ts.len(), |i: int| task_spec(ts[i]))
}

pub open spec fn section_spec(s: GanttSection) -> SectionSpec {
    SectionSpec { label: s.label@, tasks: tasks_spec(s.tasks@) }
}

pub open spec fn sections_spec(ss: Seq<GanttSection>) -> Seq<SectionSpec> {
    Seq::new(ss.len(), |i: int| section_spec(ss[i]))
}

impl View for GanttChart {
    type V = GanttSpec;

    closed spec fn view(&self) -> GanttSpec {
        GanttSpec {
            width: self.width,
            charset: self.charset,
            time_unit: self.time_unit,
            total_units: self.total_units,
            sections: sections_spec(self.sections@),
            today_offset: self.today_offset,
            color: self.color,
        }
    }
}

// ---------------------------------------------------------------------
// Geometry
// ---------------------------------------------------------------------

/// Width of the label column: a quarter of the chart, between 10 and 20.
pub open spec fn label_width(g: GanttSpec) -> int {
    let q = g.width as int / 4;
    let m: int = if q < 20 {
        q
    } else {
        20
    };
    if m > 10 {
        m
    } else {
        10
    }
}

/// Columns per time unit: the room right of the labels shared evenly.
pub open spec fn col_per_unit(g: GanttSpec) -> int {
    sat_sub(g.width as int, label_width(g) + 2) / (if g.total_units > 1 {
        g.total_units as int
    } else {
        1
    })
}

/// Width of the bar area.
pub open spec fn chart_width(g: GanttSpec) -> int {
    col_per_unit(g) * g.total_units
}

/// First column of the bar area.
pub open spec fn chart_start(g: GanttSpec) -> int {
    label_width(g) + 2
}

/// Width of the drawn chart.
pub open spec fn display_width(g: GanttSpec) -> int {
    chart_start(g) + chart_width(g)
}

/// Room for a label: the label column less the indent and margin.
pub open spec fn inner_label_width(g: GanttSpec) -> int {
    label_width(g) - 2
}

proof fn lemma_geometry(g: GanttSpec)
    ensures
        10 <= label_width(g) <= 20,
        0 <= col_per_unit(g),
        0 <= chart_width(g) <= sat_sub(g.width as int, label_width(g) + 2),
        display_width(g) <= usize::MAX,
        forall|u: int| 0 <= u <= g.total_units ==> #[trigger] (u * col_per_unit(g)) <= chart_width(g),
{
    let avail = sat_sub(g.width as int, label_width(g) + 2);
    let d: int = if g.total_units > 1 {
        g.total_units as int
    } else {
        1
    };
    let c = avail / d;
    assert(c * d <= avail) by (nonlinear_arith)
        requires
            c == avail / d,
            d >= 1,
            avail >= 0,
    ;
    assert(c >= 0) by (nonlinear_arith)
        requires
            c == avail / d,
            d >= 1,
            avail >= 0,
    ;
    if g.total_units == 0 {
        assert(c * g.total_units == 0) by (nonlinear_arith)
            requires
                g.total_units == 0,
        ;
    } else {
        assert(d == g.total_units);
    }
    assert forall|u: int| 0 <= u <= g.total_units implies #[trigger] (u * col_per_unit(g)) <= chart_width(g) by {
        assert(u * c <= g.total_units * c) by (nonlinear_arith)
            requires
                0 <= u <= g.total_units,
                c >= 0,
        ;
    }
}

// ---------------------------------------------------------------------
// Label rows
// ---------------------------------------------------------------------

/// One row group of the label column: a section header or a task, the
/// text to wrap, the room for it, whether a blank row comes first, and
/// the task whose bar goes on its first row.
pub struct EntrySpec {
    pub text: Seq<char>,
    pub avail: int,
    pub sep: bool,
    pub task: Option<TaskSpec>,
}

/// Entries of the first `k` tasks of a section. Tasks of a labelled
/// section get two cells less (their indent); every task but the first
/// of an unlabelled section has a blank row before it.
pub open spec fn task_entries(sec: SectionSpec, inner: int, k: int) -> Seq<EntrySpec>
    decreases k,
{
    if k <= 0 {
        Seq::empty()
    } else {
        task_entries(sec, inner, k - 1).push(
            EntrySpec {
                text: sec.tasks[k - 1].name,
                avail: if sec.label.len() == 0 {
                    inner
                } else {
                    sat_sub(inner, 2)
                },
                sep: sec.label.len() > 0 || k - 1 > 0,
                task: Some(sec.tasks[k - 1]),
            },
        )
    }
}

/// Entries of section `si`: its header when labelled (with a blank row
/// before it unless it is the first section), then its tasks.
pub open spec fn section_entries(sec: SectionSpec, si: int, inner: int) -> Seq<EntrySpec> {
    (if sec.label.len() > 0 {
        seq![EntrySpec { text: sec.label, avail: inner, sep: si > 0, task: None }]
    } else {
        Seq::empty()
    }) + task_entries(sec, inner, sec.tasks.len() as int)
}

/// Entries of the first `k` sections.
pub open spec fn entries_upto(secs: Seq<SectionSpec>, inner: int, k: int) -> Seq<EntrySpec>
    decreases k,
{
    if k <= 0 {
        Seq::empty()
    } else {
        entries_upto(secs, inner, k - 1) + section_entries(secs[k - 1], k - 1, inner)
    }
}

/// All entries of the chart.
pub open spec fn entries(g: GanttSpec) -> Seq<EntrySpec> {
    entries_upto(g.sections, inner_label_width(g), g.sections.len() as int)
}

/// Lines of an entry: its wrapped lines, or one empty line.
pub open spec fn lines_or_blank(ls: Seq<Seq<char>>) -> Seq<Seq<char>> {
    if ls.len() == 0 {
        seq![Seq::empty()]
    } else {
        ls
    }
}

/// Rows taken by the first `k` entries.
pub open spec fn rows_used(es: Seq<EntrySpec>, ls: Seq<Seq<Seq<char>>>, k: int) -> int
    decreases k,
{
    if k <= 0 {
        0
    } else {
        sat_add(
            sat_add(rows_used(es, ls, k - 1), if es[k - 1].sep {
                1int
            } else {
                0int
            }),
            lines_or_blank(ls[k - 1]).len() as int,
        )
    }
}

/// `ls[e]` is a wrapping of entry `e`'s text.
pub open spec fn wraps_all(es: Seq<EntrySpec>, ls: Seq<Seq<Seq<char>>>) -> bool {
    &&& ls.len() == es.len()
    &&& forall|e: int| 0 <= e < es.len() ==> #[trigger] wraps_label(ls[e], es[e].text, es[e].avail)
}

/// The chart has a task.
pub open spec fn has_tasks(g: GanttSpec) -> bool {
    exists|si: int| 0 <= si < g.sections.len() && (#[trigger] g.sections[si]).tasks.len() > 0
}


// ---------------------------------------------------------------------
// The picture
// ---------------------------------------------------------------------

/// The border glyphs of the chart.
pub open spec fn chart_glyphs(g: GanttSpec) -> BorderGlyphs {
    spec_glyphs(BorderStyle::Single, g.charset)
}

/// Outer border and the separator between labels and bars, with tees
/// where it meets the border.
pub open spec fn frame(g: GanttSpec, h: int) -> CanvasView {
    let gl = chart_glyphs(g);
    let dw = display_width(g);
    let sx = label_width(g) + 1;
    blank_view(dw as nat, h as nat).rect(0, 0, dw, h, gl).vline(sx, 1, h - 2, gl.vertical, Layer::Connector).put(
        sx,
        0,
        gl.tee_down,
        Layer::NodeContent,
        None,
    ).put(sx, h - 1, gl.tee_up, Layer::NodeContent, None)
}

/// Every how many units a number is printed: every unit when a unit is
/// at least 3 columns wide, every 5th at 2 columns, else every 10th.
pub open spec fn label_step(col: int) -> int {
    if col >= 3 {
        1
    } else if col >= 2 {
        5
    } else {
        10
    }
}

/// The scale row for units `0..k`: the unit's number where one is due
/// (and the last unit's), unless it would reach the right border; a
/// tick elsewhere.
pub open spec fn scale(v: CanvasView, g: GanttSpec, k: int) -> CanvasView
    decreases k,
{
    if k <= 0 {
        v
    } else {
        let u = k - 1;
        let w = scale(v, g, k - 1);
        let x = chart_start(g) + u * col_per_unit(g);
        let max_x = sat_sub(display_width(g), 2);
        if u % label_step(col_per_unit(g)) == 0 || u + 1 == g.total_units {
            if x <= max_x {
                w.put_str(x, 1, decimal(u as nat), Layer::NodeContent, None)
            } else {
                w
            }
        } else {
            w.put(x, 1, chart_glyphs(g).tee_down, Layer::Grid, None)
        }
    }
}

/// A label line padded with spaces to the label column.
pub open spec fn label_line(line: Seq<char>, lw: int) -> Seq<char> {
    line + spaces(sat_sub(lw, sat_add(chars_width(line) as int, 1)) as nat)
}

/// Lines `0..k` of a label from row `row`.
pub open spec fn label_block(v: CanvasView, lines: Seq<Seq<char>>, lw: int, row: int, k: int) -> CanvasView
    decreases k,
{
    if k <= 0 {
        v
    } else {
        label_block(v, lines, lw, row, k - 1).put_str(
            1,
            sat_add(row, k - 1),
            label_line(lines[k - 1], lw),
            Layer::NodeContent,
            None,
        )
    }
}

/// First column of a task's bar.
pub open spec fn bar_start(g: GanttSpec, t: TaskSpec) -> int {
    sat_add(chart_start(g), sat_mul(t.start as int, col_per_unit(g)))
}

/// Length of a task's bar, at least one cell.
pub open spec fn bar_len(g: GanttSpec, t: TaskSpec) -> int {
    let l = sat_mul(t.duration as int, col_per_unit(g));
    if l > 1 {
        l
    } else {
        1
    }
}

/// Cells of the bar shown as done: `progress` percent, rounded down.
pub open spec fn bar_filled(g: GanttSpec, t: TaskSpec) -> int {
    bar_len(g, t) * t.progress / 100
}

/// Glyph of a done or a pending bar cell.
pub open spec fn fill_char(cs: Charset, done: bool) -> char {
    match cs {
        Charset::Unicode => if done {
            '\u{2588}'
        } else {
            '\u{2591}'
        },
        Charset::Ascii => if done {
            '#'
        } else {
            '.'
        },
    }
}

/// Glyph of a milestone.
pub open spec fn milestone_char(cs: Charset) -> char {
    match cs {
        Charset::Unicode => '\u{25c6}',
        Charset::Ascii => '*',
    }
}

/// Cells `0..k` of a bar from `x0` on row `y`.
pub open spec fn bar_cells(v: CanvasView, x0: int, y: int, filled: int, cs: Charset, k: int) -> CanvasView
    decreases k,
{
    if k <= 0 {
        v
    } else {
        bar_cells(v, x0, y, filled, cs, k - 1).put(
            sat_add(x0, k - 1),
            y,
            fill_char(cs, k - 1 < filled),
            Layer::NodeContent,
            None,
        )
    }
}

/// A task's mark on row `row`: the milestone glyph, or its bar.
pub open spec fn task_mark(v: CanvasView, g: GanttSpec, t: TaskSpec, row: int) -> CanvasView {
    if t.milestone {
        v.put_str(bar_start(g, t), row, seq![milestone_char(g.charset)], Layer::NodeContent, None)
    } else {
        bar_cells(v, bar_start(g, t), row, bar_filled(g, t), g.charset, bar_len(g, t))
    }
}

proof fn lemma_bar_cells_cell(v: CanvasView, x0: int, y: int, f: int, cs: Charset, k: int, cx: int, cy: int)
    requires
        v.wf(),
        v.in_bounds(cx, cy),
        x0 >= 0,
        x0 + k <= usize::MAX,
    ensures
        bar_cells(v, x0, y, f, cs, k).wf(),
        bar_cells(v, x0, y, f, cs, k).width == v.width,
        bar_cells(v, x0, y, f, cs, k).height == v.height,
        bar_cells(v, x0, y, f, cs, k).cell(cx, cy) == (if cy == y && x0 <= cx < x0 + k {
            crate::canvas::painted(v.cell(cx, cy), fill_char(cs, cx - x0 < f), Layer::NodeContent, None)
        } else {
            v.cell(cx, cy)
        }),
    decreases k,
{
    if k > 0 {
        lemma_bar_cells_cell(v, x0, y, f, cs, k - 1, cx, cy);
        let p = bar_cells(v, x0, y, f, cs, k - 1);
        assert(sat_add(x0, k - 1) == x0 + k - 1);
        crate::canvas::lemma_put_inside(p, x0 + k - 1, y, fill_char(cs, k - 1 < f), Layer::NodeContent, None, 0, 0, p.width as int, p.height as int);
        crate::canvas::law_layered_write(p, x0 + k - 1, y, fill_char(cs, k - 1 < f), Layer::NodeContent, None, cx, cy);
    }
}

/// A task's bar: on the task's row, the cells from
/// `chart_start + start * col_per_unit` for `max(1, duration *
/// col_per_unit)` columns take the bar glyph (done for the first
/// `progress` percent of them, rounded down, pending after), each at the
/// node-content layer; every other cell, and every other row, is kept.
pub proof fn law_task_bar_position(v: CanvasView, g: GanttSpec, t: TaskSpec, row: int, cx: int, cy: int)
    requires
        v.wf(),
        v.in_bounds(cx, cy),
        !t.milestone,
        ({
            let cpu = col_per_unit(g);
            let len = if t.duration * cpu > 1 { t.duration * cpu } else { 1 };
            chart_start(g) + t.start * cpu + len <= usize::MAX
        }),
    ensures
        ({
            let cpu = col_per_unit(g);
            let s0 = chart_start(g) + t.start * cpu;
            let len = if t.duration * cpu > 1 { t.duration * cpu } else { 1 };
            let done = len * t.progress / 100;
            task_mark(v, g, t, row).cell(cx, cy) == if cy == row && s0 <= cx < s0 + len {
                crate::canvas::painted(v.cell(cx, cy), fill_char(g.charset, cx - s0 < done), Layer::NodeContent, None)
            } else {
                v.cell(cx, cy)
            }
        }),
{
    lemma_geometry(g);
    let cpu = col_per_unit(g);
    assert(t.start * cpu >= 0) by (nonlinear_arith)
        requires
            cpu >= 0,
    ;
    assert(t.duration * cpu >= 0) by (nonlinear_arith)
        requires
            cpu >= 0,
    ;
    assert(sat_mul(t.start as int, cpu) == t.start * cpu);
    assert(sat_mul(t.duration as int, cpu) == t.duration * cpu);
    assert(bar_start(g, t) == chart_start(g) + t.start * cpu);
    lemma_bar_cells_cell(v, bar_start(g, t), row, bar_filled(g, t), g.charset, bar_len(g, t), cx, cy);
}

/// A milestone's mark: its glyph at column `chart_start + start *
/// col_per_unit` of its row, at the node-content layer; other rows and
/// the cells left of it are kept.
pub proof fn law_milestone_position(v: CanvasView, g: GanttSpec, t: TaskSpec, row: int, cx: int, cy: int)
    requires
        v.wf(),
        v.in_bounds(cx, cy),
        t.milestone,
        chart_start(g) + t.start * col_per_unit(g) <= usize::MAX,
    ensures
        ({
            let s0 = chart_start(g) + t.start * col_per_unit(g);
            &&& (cx == s0 && cy == row) ==> task_mark(v, g, t, row).cell(cx, cy) == crate::canvas::painted(
                v.cell(cx, cy),
                milestone_char(g.charset),
                Layer::NodeContent,
                None,
            )
            &&& (cy != row || cx < s0) ==> task_mark(v, g, t, row).cell(cx, cy) == v.cell(cx, cy)
        }),
{
    lemma_geometry(g);
    let cpu = col_per_unit(g);
    assert(t.start * cpu >= 0) by (nonlinear_arith)
        requires
            cpu >= 0,
    ;
    assert(sat_mul(t.start as int, cpu) == t.start * cpu);
    let s0 = bar_start(g, t);
    assert(s0 == chart_start(g) + t.start * cpu);
    crate::canvas::lemma_put_str_cell(v, s0, row, seq![milestone_char(g.charset)], Layer::NodeContent, None, cx, cy);
    if cx == s0 && cy == row {
        crate::canvas::lemma_put_char_at(v, s0, row, milestone_char(g.charset), Layer::NodeContent, None);
    }
}

/// Entries `0..k` drawn from row 3, and the row after them.
pub open spec fn draw_entries(v: CanvasView, g: GanttSpec, es: Seq<EntrySpec>, ls: Seq<Seq<Seq<char>>>, k: int) -> (
    CanvasView,
    int,
)
    decreases k,
{
    if k <= 0 {
        (v, 3)
    } else {
        let prev = draw_entries(v, g, es, ls, k - 1);
        let e = es[k - 1];
        let row = if e.sep {
            sat_add(prev.1, 1)
        } else {
            prev.1
        };
        let lines = lines_or_blank(ls[k - 1]);
        let w1 = label_block(prev.0, lines, label_width(g), row, lines.len() as int);
        let w2 = match e.task {
            Some(t) => task_mark(w1, g, t, row),
            None => w1,
        };
        (w2, sat_add(row, lines.len() as int))
    }
}

/// The today marker: a vertical line at the offset's column when it
/// falls inside the bar area.
pub open spec fn today_mark(v: CanvasView, g: GanttSpec, h: int) -> CanvasView {
    match g.today_offset {
        Some(off) => {
            let tx = sat_add(chart_start(g), sat_mul(off as int, col_per_unit(g)));
            if tx < chart_start(g) + chart_width(g) {
                v.vline(tx, 1, h - 2, chart_glyphs(g).vertical, Layer::Connector)
            } else {
                v
            }
        },
        None => v,
    }
}

/// Height of the chart: the entry rows, the header rows and the border.
pub open spec fn chart_height(g: GanttSpec, ls: Seq<Seq<Seq<char>>>) -> int {
    sat_add(rows_used(entries(g), ls, entries(g).len() as int), 4)
}

/// The chart drawn with the wrapped labels `ls`.
pub open spec fn gantt_view(g: GanttSpec, ls: Seq<Seq<Seq<char>>>) -> CanvasView {
    let es = entries(g);
    let h = chart_height(g, ls);
    let v1 = scale(frame(g, h), g, g.total_units as int).hline(
        chart_start(g),
        2,
        chart_width(g),
        chart_glyphs(g).horizontal,
        Layer::Connector,
    );
    today_mark(draw_entries(v1, g, es, ls, es.len() as int).0, g, h)
}

/// The text of the chart drawn with the wrapped labels `ls`.
pub open spec fn gantt_text(g: GanttSpec, ls: Seq<Seq<Seq<char>>>) -> Seq<char> {
    gantt_view(g, ls).rendered(g.color)
}

/// The error message of a chart without tasks.
pub open spec fn no_tasks_message() -> Seq<char> {
    seq!['n', 'o', ' ', 't', 'a', 's', 'k', 's', ' ', 's', 'p', 'e', 'c', 'i', 'f', 'i', 'e', 'd']
}

// ---------------------------------------------------------------------
// Builder
// ---------------------------------------------------------------------

impl GanttChart {
    /// A chart `width` columns wide with `total_units` units on its scale.
    pub fn new(width: usize, charset: Charset, time_unit: TimeUnit, total_units: usize) -> (r: Self)
        ensures
            r@ == (GanttSpec {
                width,
                charset,
                time_unit,
                total_units,
                sections: Seq::empty(),
                today_offset: None,
                color: false,
            }),
    {
        let r = GanttChart {
            width,
            charset,
            time_unit,
            total_units,
            sections: Vec::new(),
            today_offset: None,
            color: false,
        };
        assert(sections_spec(r.sections@) =~= Seq::empty());
        r
    }

    /// Add a section.
    pub fn add_section(self, section: GanttSection) -> (r: Self)
        ensures
            r@ == (GanttSpec { sections: self@.sections.push(section_spec(section)), ..self@ }),
    {
        let mut s = self;
        let ghost old_secs = s.sections@;
        s.sections.push(section);
        assert(sections_spec(s.sections@) =~= sections_spec(old_secs).push(section_spec(section)));
        s
    }

    /// Add a task to the last section, starting an unlabelled one when
    /// there is none.
    pub fn add_task(self, task: GanttTask) -> (r: Self)
        ensures
            ({
                let secs = if self@.sections.len() == 0 {
                    seq![SectionSpec { label: Seq::empty(), tasks: Seq::empty() }]
                } else {
                    self@.sections
                };
                let last = secs.last();
                r@ == (GanttSpec {
                    sections: secs.update(
                        secs.len() - 1,
                        SectionSpec { tasks: last.tasks.push(task_spec(task)), ..last },
                    ),
                    ..self@
                })
            }),
    {
        let mut s = self;
        let ghost s0 = s.sections@;
        if s.sections.len() == 0 {
            let no_tasks: Vec<GanttTask> = Vec::new();
            let no_chars: Vec<char> = Vec::new();
            let lbl = string_from_chars(no_chars.as_slice());
            proof {
                assert(lbl@ =~= Seq::<char>::empty());
                assert(tasks_spec(no_tasks@) =~= Seq::<TaskSpec>::empty());
            }
            s.sections.push(GanttSection { label: lbl, tasks: no_tasks });
            proof {
                assert(sections_spec(s.sections@) =~= seq![SectionSpec { label: Seq::empty(), tasks: Seq::empty() }]);
            }
        }
        let ghost s1 = s.sections@;
        let mut last = s.sections.pop().unwrap();
        let ghost last0 = last;
        last.tasks.push(task);
        s.sections.push(last);
        proof {
            assert(tasks_spec(last.tasks@) =~= tasks_spec(last0.tasks@).push(task_spec(task)));
            assert(sections_spec(s.sections@) =~= sections_spec(s1).update(
                s1.len() - 1,
                SectionSpec { tasks: tasks_spec(last0.tasks@).push(task_spec(task)), ..section_spec(last0) },
            ));
        }
        s
    }

    /// Mark "today" at `offset` units.
    pub fn today_marker(self, offset: usize) -> (r: Self)
        ensures
            r@ == (GanttSpec { today_offset: Some(offset), ..self@ }),
    {
        GanttChart { today_offset: Some(offset), ..self }
    }

    /// Enable or disable color output.
    pub fn color(self, enabled: bool) -> (r: Self)
        ensures
            r@ == (GanttSpec { color: enabled, ..self@ }),
    {
        GanttChart { color: enabled, ..self }
    }
}


// ---------------------------------------------------------------------
// Drawing
// ---------------------------------------------------------------------

/// The wrapped lines of a list of entries.
pub open spec fn lines_views(v: Seq<Vec<String>>) -> Seq<Seq<Seq<char>>> {
    Seq::new(v.len(), |e: int| views(v[e]@))
}

/// `t` names the task of an entry by section and task index.
pub open spec fn task_ref_ok(g: GanttSpec, t: Option<(usize, usize)>, ts: Option<TaskSpec>) -> bool {
    match t {
        Some((si, ti)) => si < g.sections.len() && ti < g.sections[si as int].tasks.len() && ts == Some(
            g.sections[si as int].tasks[ti as int],
        ),
        None => ts is None,
    }
}

/// The entry lists hold, for each entry of `es`, a wrapping of its text,
/// its blank-row flag and a reference to its task.
pub open spec fn built(
    g: GanttSpec,
    lines: Seq<Vec<String>>,
    seps: Seq<bool>,
    tasks: Seq<Option<(usize, usize)>>,
    es: Seq<EntrySpec>,
) -> bool {
    &&& lines.len() == es.len()
    &&& seps.len() == es.len()
    &&& tasks.len() == es.len()
    &&& forall|e: int| 0 <= e < es.len() ==> #[trigger] wraps_label(views(lines[e]@), es[e].text, es[e].avail)
    &&& forall|e: int| 0 <= e < es.len() ==> #[trigger] seps[e] == es[e].sep
    &&& forall|e: int| 0 <= e < es.len() ==> #[trigger] task_ref_ok(g, tasks[e], es[e].task)
}

/// Wrap an entry's text at `avail` columns (no lines for no text).
pub(crate) fn wrap_entry(text: &str, avail: usize) -> (r: Vec<String>)
    ensures
        wraps_label(views(r@), text@, avail as int),
{
    let cs = chars_of(text);
    if cs.len() == 0 {
        let r: Vec<String> = Vec::new();
        assert(views(r@) =~= Seq::<Seq<char>>::empty());
        r
    } else {
        wrap_label(text, avail).lines
    }
}

/// Rows taken by the entries.
fn count_rows(es: Ghost<Seq<EntrySpec>>, lines: &Vec<Vec<String>>, seps: &Vec<bool>) -> (r: usize)
    requires
        lines@.len() == es@.len(),
        seps@.len() == es@.len(),
        forall|e: int| 0 <= e < es@.len() ==> #[trigger] seps@[e] == es@[e].sep,
    ensures
        r == rows_used(es@, lines_views(lines@), es@.len() as int),
{
    let mut rows: usize = 0;
    let mut e: usize = 0;
    while e < lines.len()
        invariant
            e <= lines@.len(),
            lines@.len() == es@.len(),
            seps@.len() == es@.len(),
            forall|k: int| 0 <= k < es@.len() ==> #[trigger] seps@[k] == es@[k].sep,
            rows == rows_used(es@, lines_views(lines@), e as int),
        decreases lines@.len() - e,
    {
        if seps[e] {
            rows = rows.saturating_add(1);
        }
        let n = lines[e].len();
        let h: usize = if n == 0 {
            1
        } else {
            n
        };
        proof {
            assert(lines_views(lines@)[e as int] == views(lines@[e as int]@));
            assert(views(lines@[e as int]@).len() == n);
        }
        rows = rows.saturating_add(h);
        e = e + 1;
    }
    rows
}

impl GanttChart {
    /// The entries of the chart with their wrapped labels.
    fn collect_entries(&self, inner: usize) -> (r: (Vec<Vec<String>>, Vec<bool>, Vec<Option<(usize, usize)>>))
        requires
            inner as int == inner_label_width(self@),
        ensures
            built(self@, r.0@, r.1@, r.2@, entries(self@)),
    {
        let ghost g = self@;
        let mut lines: Vec<Vec<String>> = Vec::new();
        let mut seps: Vec<bool> = Vec::new();
        let mut tasks: Vec<Option<(usize, usize)>> = Vec::new();
        let ghost mut es: Seq<EntrySpec> = Seq::empty();
        let mut si: usize = 0;
        while si < self.sections.len()
            invariant
                g == self@,
                g.sections == sections_spec(self.sections@),
                inner as int == inner_label_width(g),
                si <= self.sections@.len(),
                es == entries_upto(g.sections, inner as int, si as int),
                built(g, lines@, seps@, tasks@, es),
            decreases self.sections@.len() - si,
        {
            let sec = &self.sections[si];
            let ghost ss = g.sections[si as int];
            assert(ss == section_spec(self.sections@[si as int]));
            let label_chars = chars_of(sec.label.as_str());
            let labelled = label_chars.len() > 0;
            if labelled {
                let wl = wrap_entry(sec.label.as_str(), inner);
                lines.push(wl);
                seps.push(si > 0);
                tasks.push(None);
                proof {
                    es = es.push(EntrySpec { text: ss.label, avail: inner as int, sep: si > 0, task: None });
                }
            }
            let ghost es_head = es;
            proof {
                assert(es_head =~= entries_upto(g.sections, inner as int, si as int) + (if ss.label.len() > 0 {
                    seq![EntrySpec { text: ss.label, avail: inner as int, sep: si > 0, task: None }]
                } else {
                    Seq::empty()
                }));
            }
            let avail = if labelled {
                inner.saturating_sub(2)
            } else {
                inner
            };
            let mut ti: usize = 0;
            while ti < sec.tasks.len()
                invariant
                    g == self@,
                    g.sections == sections_spec(self.sections@),
                    inner as int == inner_label_width(g),
                    si < self.sections@.len(),
                    sec == &self.sections@[si as int],
                    ss == g.sections[si as int],
                    ss == section_spec(*sec),
                    labelled == (ss.label.len() > 0),
                    avail as int == (if ss.label.len() == 0 {
                        inner as int
                    } else {
                        sat_sub(inner as int, 2)
                    }),
                    ti <= sec.tasks@.len(),
                    es == es_head + task_entries(ss, inner as int, ti as int),
                    built(g, lines@, seps@, tasks@, es),
                decreases sec.tasks@.len() - ti,
            {
                let wl = wrap_entry(sec.tasks[ti].name.as_str(), avail);
                lines.push(wl);
                seps.push(labelled || ti > 0);
                tasks.push(Some((si, ti)));
                proof {
                    assert(ss.tasks[ti as int] == task_spec(sec.tasks@[ti as int]));
                    let x = EntrySpec {
                        text: ss.tasks[ti as int].name,
                        avail: avail as int,
                        sep: ss.label.len() > 0 || ti > 0,
                        task: Some(ss.tasks[ti as int]),
                    };
                    assert(task_entries(ss, inner as int, ti as int + 1) == task_entries(ss, inner as int, ti as int).push(x));
                    es = es.push(x);
                    assert(es =~= es_head + task_entries(ss, inner as int, ti as int + 1));
                    assert(task_ref_ok(g, tasks@.last(), x.task));
                }
                ti = ti + 1;
            }
            proof {
                assert(es =~= entries_upto(g.sections, inner as int, si as int + 1));
            }
            si = si + 1;
        }
        (lines, seps, tasks)
    }
}


/// A label line padded to the label column.
fn padded_line(line: &str, lw: usize) -> (r: Vec<char>)
    ensures
        r@ == label_line(line@, lw as int),
{
    let mut r = chars_of(line);
    let w = seq_display_width(r.as_slice());
    push_spaces(&mut r, lw.saturating_sub(w.saturating_add(1)));
    r
}

/// Draw the lines of one label (one blank line for none) from `row`.
fn draw_label_lines(canvas: &mut Canvas, lines: &Vec<String>, lw: usize, row: usize)
    requires
        old(canvas)@.wf(),
    ensures
        final(canvas)@.wf(),
        final(canvas)@ == label_block(
            old(canvas)@,
            lines_or_blank(views(lines@)),
            lw as int,
            row as int,
            lines_or_blank(views(lines@)).len() as int,
        ),
{
    let ghost lb = lines_or_blank(views(lines@));
    if lines.len() == 0 {
        let no_chars: Vec<char> = Vec::new();
        let blank = string_from_chars(no_chars.as_slice());
        let p = padded_line(blank.as_str(), lw);
        proof {
            assert(blank@ =~= Seq::<char>::empty());
            assert(views(lines@).len() == 0);
            assert(lb == seq![Seq::<char>::empty()]);
        }
        canvas.put_chars_layered(1, row, p.as_slice(), Layer::NodeContent, None);
        proof {
            assert(label_block(old(canvas)@, lb, lw as int, row as int, 0) == old(canvas)@);
        }
        return;
    }
    let ghost v0 = canvas@;
    let mut i: usize = 0;
    while i < lines.len()
        invariant
            i <= lines@.len(),
            lines@.len() > 0,
            lb == views(lines@),
            canvas@.wf(),
            canvas@ == label_block(v0, lb, lw as int, row as int, i as int),
        decreases lines@.len() - i,
    {
        let p = padded_line(lines[i].as_str(), lw);
        proof {
            assert(lb[i as int] == lines@[i as int]@);
        }
        canvas.put_chars_layered(1, row.saturating_add(i), p.as_slice(), Layer::NodeContent, None);
        i = i + 1;
    }
}

impl GanttChart {
    /// Draw a task's milestone or bar on `row`.
    fn draw_task(&self, canvas: &mut Canvas, si: usize, ti: usize, cs: usize, col: usize, row: usize)
        requires
            old(canvas)@.wf(),
            si < self@.sections.len(),
            ti < self@.sections[si as int].tasks.len(),
            cs as int == chart_start(self@),
            col as int == col_per_unit(self@),
        ensures
            final(canvas)@.wf(),
            final(canvas)@ == task_mark(old(canvas)@, self@, self@.sections[si as int].tasks[ti as int], row as int),
    {
        let ghost g = self@;
        let task = &self.sections[si].tasks[ti];
        let ghost t = g.sections[si as int].tasks[ti as int];
        proof {
            assert(g.sections[si as int] == section_spec(self.sections@[si as int]));
            assert(t == task_spec(self.sections@[si as int].tasks@[ti as int]));
        }
        let start = cs.saturating_add(mul_sat(task.start, col));
        let l = mul_sat(task.duration, col);
        let len: usize = if l > 1 {
            l
        } else {
            1
        };
        if task.milestone {
            let mark: char = match self.charset {
                Charset::Unicode => '\u{25c6}',
                Charset::Ascii => '*',
            };
            let m = vec![mark];
            assert(m@ =~= seq![milestone_char(g.charset)]);
            canvas.put_chars_layered(start, row, m.as_slice(), Layer::NodeContent, None);
        } else {
            let a: u128 = len as u128;
            let b: u128 = task.progress as u128;
            assert(a * b <= 0xffff_ffff_ffff_ffffu128 * 255) by (nonlinear_arith)
                requires
                    a <= 0xffff_ffff_ffff_ffffu128,
                    b <= 255,
            ;
            let filled: u128 = a * b / 100;
            assert(filled == bar_filled(g, t));
            let ghost v0 = canvas@;
            let mut i: usize = 0;
            while i < len
                invariant
                    i <= len,
                    len as int == bar_len(g, t),
                    start as int == bar_start(g, t),
                    filled as int == bar_filled(g, t),
                    g.charset == self.charset,
                    canvas@.wf(),
                    canvas@ == bar_cells(v0, start as int, row as int, filled as int, g.charset, i as int),
                decreases len - i,
            {
                let done = (i as u128) < filled;
                let ch: char = match self.charset {
                    Charset::Unicode => if done {
                        '\u{2588}'
                    } else {
                        '\u{2591}'
                    },
                    Charset::Ascii => if done {
                        '#'
                    } else {
                        '.'
                    },
                };
                canvas.put(start.saturating_add(i), row, ch);
                i = i + 1;
            }
        }
    }

    /// Draw the scale row.
    fn draw_scale(&self, canvas: &mut Canvas, cs: usize, col: usize, dw: usize, tee: char)
        requires
            old(canvas)@.wf(),
            cs as int == chart_start(self@),
            col as int == col_per_unit(self@),
            dw as int == display_width(self@),
            tee == chart_glyphs(self@).tee_down,
        ensures
            final(canvas)@.wf(),
            final(canvas)@ == scale(old(canvas)@, self@, self@.total_units as int),
    {
        let ghost g = self@;
        proof {
            lemma_geometry(g);
        }
        let step: usize = if col >= 3 {
            1
        } else if col >= 2 {
            5
        } else {
            10
        };
        let max_x = dw.saturating_sub(2);
        let ghost v0 = canvas@;
        let mut u: usize = 0;
        while u < self.total_units
            invariant
                g == self@,
                u <= g.total_units,
                cs as int == chart_start(g),
                col as int == col_per_unit(g),
                dw as int == display_width(g),
                step as int == label_step(col as int),
                max_x as int == sat_sub(dw as int, 2),
                tee == chart_glyphs(g).tee_down,
                display_width(g) <= usize::MAX,
                forall|k: int| 0 <= k <= g.total_units ==> #[trigger] (k * col_per_unit(g)) <= chart_width(g),
                canvas@.wf(),
                canvas@ == scale(v0, g, u as int),
            decreases g.total_units - u,
        {
            assert((u as int) * col_per_unit(g) <= chart_width(g));
            let x = cs + u * col;
            if u % step == 0 || u + 1 == self.total_units {
                if x <= max_x {
                    let digits = decimal_chars(u);
                    canvas.put_chars_layered(x, 1, digits.as_slice(), Layer::NodeContent, None);
                }
            } else {
                canvas.put_layered(x, 1, tee, Layer::Grid, None);
            }
            u = u + 1;
        }
    }
}


/// The message of a chart without tasks.
fn no_tasks_text() -> (r: String)
    ensures
        r@ == no_tasks_message(),
{
    let v = vec!['n', 'o', ' ', 't', 'a', 's', 'k', 's', ' ', 's', 'p', 'e', 'c', 'i', 'f', 'i', 'e', 'd'];
    assert(v@ =~= no_tasks_message());
    string_from_chars(v.as_slice())
}

impl GanttChart {
    /// Draw every entry: its label lines and its task's mark.
    fn draw_entry_rows(
        &self,
        canvas: &mut Canvas,
        lines: &Vec<Vec<String>>,
        seps: &Vec<bool>,
        tasks: &Vec<Option<(usize, usize)>>,
        lw: usize,
        cs: usize,
        col: usize,
    )
        requires
            old(canvas)@.wf(),
            built(self@, lines@, seps@, tasks@, entries(self@)),
            lw as int == label_width(self@),
            cs as int == chart_start(self@),
            col as int == col_per_unit(self@),
        ensures
            final(canvas)@.wf(),
            final(canvas)@ == draw_entries(
                old(canvas)@,
                self@,
                entries(self@),
                lines_views(lines@),
                entries(self@).len() as int,
            ).0,
    {
        let ghost g = self@;
        let ghost es = entries(g);
        let ghost ls = lines_views(lines@);
        let ghost v0 = canvas@;
        let mut row: usize = 3;
        let mut e: usize = 0;
        while e < lines.len()
            invariant
                g == self@,
                es == entries(g),
                ls == lines_views(lines@),
                built(g, lines@, seps@, tasks@, es),
                lw as int == label_width(g),
                cs as int == chart_start(g),
                col as int == col_per_unit(g),
                e <= lines@.len(),
                canvas@.wf(),
                (canvas@, row as int) == draw_entries(v0, g, es, ls, e as int),
            decreases lines@.len() - e,
        {
            proof {
                assert(seps@[e as int] == es[e as int].sep);
                assert(task_ref_ok(g, tasks@[e as int], es[e as int].task));
                assert(ls[e as int] == views(lines@[e as int]@));
            }
            if seps[e] {
                row = row.saturating_add(1);
            }
            draw_label_lines(canvas, &lines[e], lw, row);
            match tasks[e] {
                Some((si, ti)) => {
                    self.draw_task(canvas, si, ti, cs, col, row);
                },
                None => {},
            }
            let n = lines[e].len();
            let h: usize = if n == 0 {
                1
            } else {
                n
            };
            proof {
                assert(views(lines@[e as int]@).len() == n);
            }
            row = row.saturating_add(h);
            e = e + 1;
        }
    }

    /// Draw the chart. A chart without tasks is refused with
    /// `MissingFields`; otherwise it is drawn with the greedy wrapping of its
    /// labels (see `gantt_text`).
    pub fn build(&self) -> (r: Result<String>)
        ensures
            (r is Err) <==> !has_tasks(self@),
            r matches Err(e) ==> e matches FigoError::MissingFields(m) && m@ == no_tasks_message(),
            r matches Ok(s) ==> exists|ls: Seq<Seq<Seq<char>>>|
                #[trigger] wraps_all(entries(self@), ls) && s@ == gantt_text(self@, ls),
    {
        let ghost g = self@;
        let mut any = false;
        let mut si: usize = 0;
        while si < self.sections.len()
            invariant
                g == self@,
                g.sections == sections_spec(self.sections@),
                si <= self.sections@.len(),
                any <==> exists|k: int| 0 <= k < si && (#[trigger] g.sections[k]).tasks.len() > 0,
            decreases self.sections@.len() - si,
        {
            proof {
                assert(g.sections[si as int] == section_spec(self.sections@[si as int]));
            }
            if self.sections[si].tasks.len() > 0 {
                any = true;
            }
            si = si + 1;
        }
        if !any {
            return Err(FigoError::MissingFields(no_tasks_text()));
        }
        proof {
            lemma_geometry(g);
        }
        let q = self.width / 4;
        let m = if q < 20 {
            q
        } else {
            20
        };
        let lw = if m > 10 {
            m
        } else {
            10
        };
        let avail = self.width.saturating_sub(lw + 2);
        let d = if self.total_units > 1 {
            self.total_units
        } else {
            1
        };
        let col = avail / d;
        let chart_w = col * self.total_units;
        let inner = lw - 2;
        let cs = lw + 2;
        let dw = cs + chart_w;
        let (lines, seps, tasks) = self.collect_entries(inner);
        let ghost es = entries(g);
        let ghost ls = lines_views(lines@);
        let rows = count_rows(Ghost(es), &lines, &seps);
        let h = rows.saturating_add(4);
        let gl = BorderStyle::Single.glyphs(self.charset);
        let mut canvas = Canvas::new(dw, h);
        let _ = canvas.draw_rect(0, 0, dw, h, &gl);
        canvas.put_vertical(lw + 1, 1, h - 2, gl.vertical);
        canvas.put(lw + 1, 0, gl.tee_down);
        canvas.put(lw + 1, h - 1, gl.tee_up);
        self.draw_scale(&mut canvas, cs, col, dw, gl.tee_down);
        canvas.put_horizontal(cs, 2, chart_w, gl.horizontal);
        self.draw_entry_rows(&mut canvas, &lines, &seps, &tasks, lw, cs, col);
        match self.today_offset {
            Some(off) => {
                let tx = cs.saturating_add(mul_sat(off, col));
                if tx < cs + chart_w {
                    canvas.put_vertical(tx, 1, h - 2, gl.vertical);
                }
            },
            None => {},
        }
        let out = canvas.render(self.color);
        proof {
            assert forall|e: int| 0 <= e < es.len() implies #[trigger] wraps_label(ls[e], es[e].text, es[e].avail) by {
                assert(ls[e] == views(lines@[e]@));
            }
            assert(wraps_all(es, ls));
            assert(out@ == gantt_text(g, ls));
        }
        Ok(out)
    }

    /// Same as `build`.
    pub fn render(&self) -> (r: Result<String>)
        ensures
            (r is Err) <==> !has_tasks(self@),
            r matches Err(e) ==> e matches FigoError::MissingFields(m) && m@ == no_tasks_message(),
            r matches Ok(s) ==> exists|ls: Seq<Seq<Seq<char>>>|
                #[trigger] wraps_all(entries(self@), ls) && s@ == gantt_text(self@, ls),
    {
        self.build()
    }
}

} // verus!
