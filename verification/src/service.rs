//! The analysis service: one entry point per chart, each returning the
//! structured document together with its rendered diagram text.
use vstd::prelude::*;

use crate::chart::BarChart;
use crate::chart::Chart;
use crate::chart::ChartOutput;
use crate::chart::GanttChart;
use crate::chart::LineChart;
use crate::chart::PieChart;
use crate::cycle::acyclic;
use crate::distribution::build_bar;
use crate::distribution::build_bar_filtered;
use crate::distribution::build_pie;
use crate::distribution::build_pie_filtered;
use crate::distribution::opt_date_num_d;
use crate::distribution::spec_bar_fast;
use crate::distribution::spec_bar_scan;
use crate::distribution::spec_pie_fast;
use crate::distribution::spec_pie_scan;
use crate::metric::Metric;
use crate::model::tag_string;
use crate::model::extract_tag_value_string;
use crate::model::Task;
use crate::model::Workspace;
use crate::dates::iso_date_num;
use crate::dates::parse_iso_date;
use crate::render::line_values_bounded;
use crate::render::render_bar;
use crate::render::render_gantt;
use crate::render::render_line;
use crate::render::render_pie;
use crate::render::spec_render_bar;
use crate::render::spec_render_gantt;
use crate::render::spec_render_line;
use crate::render::spec_render_pie;
use crate::schedule::build_schedule;
use crate::schedule::opt_str_view;
use crate::schedule::resolved_params;
use crate::schedule::sched_selected;
use crate::schedule::spec_schedule;
use crate::series::build_line;
use crate::series::lemma_line_values_bounded;
use crate::series::opt_bound;
use crate::series::opt_label;
use crate::series::opt_metric;
use crate::series::spec_line;

verus! {

/// The analysis engine's entry points, as one stateless service.
pub struct AnalysisService;

impl AnalysisService {
    /// Builds and renders the schedule chart under the given field mapping
    /// and date range. The document is exactly the specified schedule of
    /// the records; the build fails exactly when records were selected and
    /// the dependency relation has a cycle.
    pub fn generate_gantt_chart_with_dsl_mapped_filtered(
        workspace: &Workspace,
        title_field: Option<&str>,
        start_field: Option<&str>,
        end_field: Option<&str>,
        depends_on_field: Option<&str>,
        section_field: Option<&str>,
        filter_date_field: Option<&str>,
        start_date: Option<&str>,
        end_date: Option<&str>,
    ) -> (r: Result<ChartOutput, String>)
        requires
            workspace.wf(),
        ensures
            ({
                let p = resolved_params(
                    title_field,
                    start_field,
                    end_field,
                    depends_on_field,
                    section_field,
                    filter_date_field,
                    start_date,
                    end_date,
                );
                match r {
                    Ok(out) => {
                        &&& out.data matches Chart::Gantt(g) && g@ == spec_schedule(
                            workspace.tasks@,
                            p,
                        ) && out.mermaid@ == spec_render_gantt(
                            spec_schedule(workspace.tasks@, p),
                        )
                        &&& sched_selected(workspace.tasks@, p).len() == 0 || acyclic(
                            workspace.tasks@,
                        )
                    },
                    Err(_) => sched_selected(workspace.tasks@, p).len() > 0 && !acyclic(
                        workspace.tasks@,
                    ),
                }
            }),
    {
        let doc = build_schedule(
            workspace,
            title_field,
            start_field,
            end_field,
            depends_on_field,
            section_field,
            filter_date_field,
            start_date,
            end_date,
        )?;
        let mermaid = render_gantt(&doc);
        Ok(ChartOutput { mermaid, data: Chart::Gantt(doc) })
    }

    /// Builds and renders the schedule chart under the default fields.
    pub fn generate_gantt_chart_with_dsl(workspace: &Workspace) -> (r: Result<
        ChartOutput,
        String,
    >)
        requires
            workspace.wf(),
        ensures
            ({
                let p = resolved_params(None, None, None, None, None, None, None, None);
                match r {
                    Ok(out) => out.data matches Chart::Gantt(g) && g@ == spec_schedule(
                        workspace.tasks@,
                        p,
                    ) && out.mermaid@ == spec_render_gantt(spec_schedule(workspace.tasks@, p)),
                    Err(_) => !acyclic(workspace.tasks@),
                }
            }),
    {
        Self::generate_gantt_chart_with_dsl_mapped_filtered(
            workspace,
            None,
            None,
            None,
            None,
            None,
            None,
            None,
            None,
        )
    }

    /// Builds and renders the schedule chart under a field mapping.
    pub fn generate_gantt_chart_with_dsl_mapped(
        workspace: &Workspace,
        title_field: Option<&str>,
        start_field: Option<&str>,
        end_field: Option<&str>,
        depends_on_field: Option<&str>,
        section_field: Option<&str>,
    ) -> (r: Result<ChartOutput, String>)
        requires
            workspace.wf(),
        ensures
            ({
                let p = resolved_params(
                    title_field,
                    start_field,
                    end_field,
                    depends_on_field,
                    section_field,
                    None,
                    None,
                    None,
                );
                match r {
                    Ok(out) => out.data matches Chart::Gantt(g) && g@ == spec_schedule(
                        workspace.tasks@,
                        p,
                    ) && out.mermaid@ == spec_render_gantt(spec_schedule(workspace.tasks@, p)),
                    Err(_) => !acyclic(workspace.tasks@),
                }
            }),
    {
        Self::generate_gantt_chart_with_dsl_mapped_filtered(
            workspace,
            title_field,
            start_field,
            end_field,
            depends_on_field,
            section_field,
            None,
            None,
            None,
        )
    }

    /// Builds and renders the schedule chart under a date range.
    pub fn generate_gantt_chart_with_dsl_filtered(
        workspace: &Workspace,
        filter_date_field: Option<&str>,
        start_date: Option<&str>,
        end_date: Option<&str>,
    ) -> (r: Result<ChartOutput, String>)
        requires
            workspace.wf(),
        ensures
            ({
                let p = resolved_params(
                    None,
                    None,
                    None,
                    None,
                    None,
                    filter_date_field,
                    start_date,
                    end_date,
                );
                match r {
                    Ok(out) => out.data matches Chart::Gantt(g) && g@ == spec_schedule(
                        workspace.tasks@,
                        p,
                    ) && out.mermaid@ == spec_render_gantt(spec_schedule(workspace.tasks@, p)),
                    Err(_) => !acyclic(workspace.tasks@),
                }
            }),
    {
        Self::generate_gantt_chart_with_dsl_mapped_filtered(
            workspace,
            None,
            None,
            None,
            None,
            None,
            filter_date_field,
            start_date,
            end_date,
        )
    }

    /// Builds and renders the pie chart from the category index.
    pub fn generate_pie_chart_with_dsl(workspace: &Workspace, category: &str) -> (r:
        Result<ChartOutput, String>)
        requires
            workspace.wf(),
        ensures
            match r {
                Ok(out) => out.data matches Chart::Pie(p) && spec_pie_fast(
                    *workspace,
                    category@,
                ) == Some(p@) && out.mermaid@ == spec_render_pie(p@),
                Err(_) => spec_pie_fast(*workspace, category@) is None,
            },
    {
        let doc = build_pie(workspace, category)?;
        let mermaid = render_pie(&doc);
        Ok(ChartOutput { mermaid, data: Chart::Pie(doc) })
    }

    /// Builds and renders the pie chart by a live scan over a date range.
    pub fn generate_pie_chart_with_dsl_filtered(
        workspace: &Workspace,
        category: &str,
        filter_date_field: Option<&str>,
        start_date: Option<&str>,
        end_date: Option<&str>,
    ) -> (r: Result<ChartOutput, String>)
        requires
            workspace.wf(),
        ensures
            r matches Ok(out) && out.data matches Chart::Pie(p) && p@ == spec_pie_scan(
                *workspace,
                category@,
                opt_str_view(filter_date_field),
                opt_date_num_d(start_date),
                opt_date_num_d(end_date),
            ) && out.mermaid@ == spec_render_pie(p@),
    {
        let doc = build_pie_filtered(
            workspace,
            category,
            filter_date_field,
            start_date,
            end_date,
        );
        let mermaid = render_pie(&doc);
        Ok(ChartOutput { mermaid, data: Chart::Pie(doc) })
    }

    /// Builds and renders the bar chart from the category index.
    pub fn generate_bar_chart_with_dsl(workspace: &Workspace, category: &str) -> (r:
        Result<ChartOutput, String>)
        requires
            workspace.wf(),
        ensures
            match r {
                Ok(out) => out.data matches Chart::Bar(b) && spec_bar_fast(
                    *workspace,
                    category@,
                ) == Some(b@) && out.mermaid@ == spec_render_bar(b@),
                Err(_) => spec_bar_fast(*workspace, category@) is None,
            },
    {
        let doc = build_bar(workspace, category)?;
        let mermaid = render_bar(&doc);
        Ok(ChartOutput { mermaid, data: Chart::Bar(doc) })
    }

    /// Builds and renders the bar chart by a live scan over a date range.
    pub fn generate_bar_chart_with_dsl_filtered(
        workspace: &Workspace,
        category: &str,
        filter_date_field: Option<&str>,
        start_date: Option<&str>,
        end_date: Option<&str>,
    ) -> (r: Result<ChartOutput, String>)
        requires
            workspace.wf(),
        ensures
            r matches Ok(out) && out.data matches Chart::Bar(b) && b@ == spec_bar_scan(
                *workspace,
                category@,
                opt_str_view(filter_date_field),
                opt_date_num_d(start_date),
                opt_date_num_d(end_date),
            ) && out.mermaid@ == spec_render_bar(b@),
    {
        let doc = build_bar_filtered(
            workspace,
            category,
            filter_date_field,
            start_date,
            end_date,
        );
        let mermaid = render_bar(&doc);
        Ok(ChartOutput { mermaid, data: Chart::Bar(doc) })
    }

    /// Builds and renders the line chart over the dates of a field.
    pub fn generate_line_chart_with_dsl(
        workspace: &Workspace,
        date_field: &str,
        y_axis_label: Option<&str>,
        metric: Option<&Metric>,
    ) -> (r: Result<ChartOutput, String>)
        requires
            workspace.wf(),
        ensures
            r matches Ok(out) && out.data matches Chart::Line(l) && l@ == spec_line(
                workspace.tasks@,
                date_field@,
                None,
                None,
                opt_label(y_axis_label),
                opt_metric(metric),
            ) && out.mermaid@ == spec_render_line(l@),
    {
        Self::generate_line_chart_with_dsl_filtered(
            workspace,
            date_field,
            None,
            None,
            y_axis_label,
            metric,
        )
    }

    /// Builds and renders the line chart over the dates of a field, within
    /// a date range.
    pub fn generate_line_chart_with_dsl_filtered(
        workspace: &Workspace,
        date_field: &str,
        start_date: Option<&str>,
        end_date: Option<&str>,
        y_axis_label: Option<&str>,
        metric: Option<&Metric>,
    ) -> (r: Result<ChartOutput, String>)
        requires
            workspace.wf(),
        ensures
            r matches Ok(out) && out.data matches Chart::Line(l) && l@ == spec_line(
                workspace.tasks@,
                date_field@,
                opt_bound(start_date),
                opt_bound(end_date),
                opt_label(y_axis_label),
                opt_metric(metric),
            ) && out.mermaid@ == spec_render_line(l@),
    {
        let doc = build_line(
            workspace,
            date_field,
            start_date,
            end_date,
            y_axis_label,
            metric,
        );
        proof {
            lemma_line_values_bounded(
                workspace.tasks@,
                date_field@,
                opt_bound(start_date),
                opt_bound(end_date),
                opt_label(y_axis_label),
                opt_metric(metric),
            );
            assert(line_values_bounded(doc)) by {
                assert(forall|k: int|
                    0 <= k < doc.series@.len() ==> doc@.series[k] == ((
                    #[trigger] doc.series@[k]).date@, doc.series@[k].value.micros as int));
            }
        }
        let mermaid = render_line(&doc);
        Ok(ChartOutput { mermaid, data: Chart::Line(doc) })
    }

    /// Reports the edges of one dependency cycle; the report is empty
    /// exactly when the dependency relation is acyclic.
    pub fn detect_cyclic_dependencies(workspace: &Workspace) -> (r: Vec<String>)
        requires
            workspace.wf(),
        ensures
            r@.len() == 0 <==> acyclic(workspace.tasks@),
    {
        crate::cycle::detect_cyclic_dependencies(workspace)
    }

    /// Extracts the value of `field` when it is a string carrying a
    /// parsable ISO date, exactly then.
    pub fn extract_validated_date_string(task: &Task, field: &str) -> (r: Option<String>)
        ensures
            match r {
                Some(s) => tag_string(*task, field@) == Some(s@) && iso_date_num(s@)
                    is Some,
                None => !(tag_string(*task, field@) matches Some(t) && iso_date_num(t)
                    is Some),
            },
    {
        match extract_tag_value_string(task, field) {
            Some(s) => {
                match parse_iso_date(s.as_str()) {
                    Some(_) => Some(s),
                    None => None,
                }
            },
            None => None,
        }
    }

    /// Whether the task carries parsable dates under the default start and
    /// end fields.
    pub fn has_valid_date_fields(task: &Task) -> (r: bool)
        ensures
            r == ((tag_string(*task, "start_date"@) matches Some(s) && iso_date_num(s)
                is Some) && (tag_string(*task, "end_date"@) matches Some(e) && iso_date_num(
                e,
            ) is Some)),
    {
        let s = Self::extract_validated_date_string(task, "start_date");
        let e = Self::extract_validated_date_string(task, "end_date");
        s.is_some() && e.is_some()
    }

    /// Renders a schedule document.
    pub fn dsl_to_mermaid_gantt(dsl: &GanttChart) -> (r: String)
        ensures
            r@ == spec_render_gantt(dsl@),
    {
        render_gantt(dsl)
    }

    /// Renders a pie document.
    pub fn dsl_to_mermaid_pie(dsl: &PieChart) -> (r: String)
        ensures
            r@ == spec_render_pie(dsl@),
    {
        render_pie(dsl)
    }

    /// Renders a bar document; the maximum must leave the axis headroom.
    pub fn dsl_to_mermaid_bar(dsl: &BarChart) -> (r: String)
        requires
            dsl.max_value + 5 <= u64::MAX,
        ensures
            r@ == spec_render_bar(dsl@),
    {
        render_bar(dsl)
    }

    /// Renders a line document; the point values must stay within what the
    /// record count allows.
    pub fn dsl_to_mermaid_line(dsl: &LineChart) -> (r: String)
        requires
            line_values_bounded(*dsl),
        ensures
            r@ == spec_render_line(dsl@),
    {
        render_line(dsl)
    }
}

} // verus!
