//! The structured chart documents: the language-agnostic description of a
//! schedule, a distribution or a time series, and the pair of document and
//! rendered diagram text handed back to the caller.
use vstd::prelude::*;

use crate::values::MetricValue;

verus! {

/// A chart document, tagged by chart kind.
#[derive(Clone, Debug)]
pub enum Chart {
    Gantt(GanttChart),
    Pie(PieChart),
    Line(LineChart),
    Bar(BarChart),
}

/// A schedule chart: sections of tasks with start and end dates.
#[derive(Clone, Debug)]
pub struct GanttChart {
    pub title: String,
    pub date_format: String,
    pub sections: Vec<GanttSection>,
}

/// One named section of a schedule chart.
#[derive(Clone, Debug)]
pub struct GanttSection {
    pub name: String,
    pub tasks: Vec<GanttTask>,
}

/// One scheduled task of a schedule chart.
#[derive(Clone, Debug)]
pub struct GanttTask {
    pub id: String,
    pub title: String,
    pub start: String,
    pub end: String,
    pub status: Option<String>,
    pub depends_on: Option<String>,
}

/// A category distribution rendered as a pie.
#[derive(Clone, Debug)]
pub struct PieChart {
    pub title: String,
    pub categories: Vec<CategoryCount>,
}

/// One category label with its occurrence count.
#[derive(Clone, Debug)]
pub struct CategoryCount {
    pub label: String,
    pub count: u64,
}

/// A category distribution rendered as bars over a labelled axis.
#[derive(Clone, Debug)]
pub struct BarChart {
    pub title: String,
    pub x_axis: Vec<String>,
    pub y_axis_label: String,
    pub values: Vec<u64>,
    pub max_value: u64,
}

/// A time series rendered as a line.
#[derive(Clone, Debug)]
pub struct LineChart {
    pub title: String,
    pub y_axis_label: String,
    pub series: Vec<TimeSeriesPoint>,
}

/// One dated point of a time series.
#[derive(Clone, Debug)]
pub struct TimeSeriesPoint {
    pub date: String,
    pub value: MetricValue,
}

/// The pair a chart builder returns: the rendered diagram text and the
/// structured document it was rendered from.
#[derive(Clone, Debug)]
pub struct ChartOutput {
    pub mermaid: String,
    pub data: Chart,
}

/// The kind of a dependency between two scheduled tasks.
#[derive(Clone, Copy, Debug, PartialEq, Eq, Structural)]
pub enum DependencyType {
    FinishToStart,
}

/// A dependency edge between two scheduled tasks.
#[derive(Clone, Debug)]
pub struct Dependency {
    pub from_task_id: String,
    pub to_task_id: String,
    pub dep_type: DependencyType,
}

/// The view of a scheduled task: every text field as a character sequence.
pub struct GanttTaskV {
    pub id: Seq<char>,
    pub title: Seq<char>,
    pub start: Seq<char>,
    pub end: Seq<char>,
    pub status: Option<Seq<char>>,
    pub depends_on: Option<Seq<char>>,
}

/// The view of a schedule section.
pub struct GanttSectionV {
    pub name: Seq<char>,
    pub tasks: Seq<GanttTaskV>,
}

/// The view of a schedule chart.
pub struct GanttChartV {
    pub title: Seq<char>,
    pub date_format: Seq<char>,
    pub sections: Seq<GanttSectionV>,
}

/// The view of a pie chart: labels with counts.
pub struct PieChartV {
    pub title: Seq<char>,
    pub categories: Seq<(Seq<char>, u64)>,
}

/// The view of a bar chart.
pub struct BarChartV {
    pub title: Seq<char>,
    pub x_axis: Seq<Seq<char>>,
    pub y_axis_label: Seq<char>,
    pub values: Seq<u64>,
    pub max_value: u64,
}

/// The view of a line chart: dated points with micro-unit values.
pub struct LineChartV {
    pub title: Seq<char>,
    pub y_axis_label: Seq<char>,
    pub series: Seq<(Seq<char>, int)>,
}

/// The view of an optional text.
pub open spec fn opt_view(o: Option<String>) -> Option<Seq<char>> {
    match o {
        Some(s) => Some(s@),
        None => None,
    }
}

impl View for GanttTask {
    type V = GanttTaskV;

    open spec fn view(&self) -> GanttTaskV {
        GanttTaskV {
            id: self.id@,
            title: self.title@,
            start: self.start@,
            end: self.end@,
            status: opt_view(self.status),
            depends_on: opt_view(self.depends_on),
        }
    }
}

impl View for GanttSection {
    type V = GanttSectionV;

    open spec fn view(&self) -> GanttSectionV {
        GanttSectionV {
            name: self.name@,
            tasks: Seq::new(self.tasks@.len(), |i: int| self.tasks@[i]@),
        }
    }
}

impl View for GanttChart {
    type V = GanttChartV;

    open spec fn view(&self) -> GanttChartV {
        GanttChartV {
            title: self.title@,
            date_format: self.date_format@,
            sections: Seq::new(self.sections@.len(), |i: int| self.sections@[i]@),
        }
    }
}

impl View for PieChart {
    type V = PieChartV;

    open spec fn view(&self) -> PieChartV {
        PieChartV {
            title: self.title@,
            categories: Seq::new(
                self.categories@.len(),
                |i: int| (self.categories@[i].label@, self.categories@[i].count),
            ),
        }
    }
}

impl View for BarChart {
    type V = BarChartV;

    open spec fn view(&self) -> BarChartV {
        BarChartV {
            title: self.title@,
            x_axis: Seq::new(self.x_axis@.len(), |i: int| self.x_axis@[i]@),
            y_axis_label: self.y_axis_label@,
            values: self.values@,
            max_value: self.max_value,
        }
    }
}

impl View for LineChart {
    type V = LineChartV;

    open spec fn view(&self) -> LineChartV {
        LineChartV {
            title: self.title@,
            y_axis_label: self.y_axis_label@,
            series: Seq::new(
                self.series@.len(),
                |i: int| (self.series@[i].date@, self.series@[i].value.micros as int),
            ),
        }
    }
}

} // verus!
