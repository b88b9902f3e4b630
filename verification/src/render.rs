//! The diagram renderer: a pure, total serialization of each chart
//! document into diagram text. The renderer only writes fields that stand
//! in the document, so the text is an exact function of the document.
use vstd::prelude::*;
use vstd::string::StringExecFns;

use crate::chart::BarChart;
use crate::chart::BarChartV;
use crate::chart::GanttChart;
use crate::chart::GanttChartV;
use crate::chart::GanttSectionV;
use crate::chart::GanttTaskV;
use crate::chart::LineChart;
use crate::chart::LineChartV;
use crate::chart::PieChart;
use crate::chart::PieChartV;
use crate::dates::iso_date_num;
use crate::dates::month_day_text;
use crate::dates::parse_iso_date;
use crate::dates::format_month_day;
use crate::metric::MAX_METRIC_TASKS;
use crate::metric::VALUE_MAGNITUDE;
use crate::text::dec_digit;
use crate::text::dec_text;
use crate::text::lemma_concat_cancel;
use crate::text::lemma_dec_text_digits;
use crate::text::lemma_dec_text_injective;
use crate::text::lemma_first_char_split;
use crate::text::lemma_last_char_split;
use crate::text::push_number;
use crate::text::push_slug;
use crate::text::slug_text;
use crate::values::MetricValue;

verus! {

/// One task line: the title, then either a dependency reference with the
/// task's span, or the span alone.
pub open spec fn gantt_task_text(t: GanttTaskV) -> Seq<char> {
    match t.depends_on {
        Some(dep) => "\n    "@ + t.title + " :after "@ + slug_text(dep) + ", "@ + t.start
            + "~"@ + t.end,
        None => "\n    "@ + t.title + " :"@ + t.start + ", "@ + t.end,
    }
}

/// The task lines of one section, in order.
pub open spec fn gantt_tasks_text(ts: Seq<GanttTaskV>) -> Seq<char>
    decreases ts.len(),
{
    if ts.len() == 0 {
        Seq::empty()
    } else {
        gantt_tasks_text(ts.drop_last()) + gantt_task_text(ts.last())
    }
}

/// One section: its header line and its task lines.
pub open spec fn gantt_section_text(s: GanttSectionV) -> Seq<char> {
    "\n    section "@ + s.name + gantt_tasks_text(s.tasks)
}

/// The section blocks, in order.
pub open spec fn gantt_sections_text(ss: Seq<GanttSectionV>) -> Seq<char>
    decreases ss.len(),
{
    if ss.len() == 0 {
        Seq::empty()
    } else {
        gantt_sections_text(ss.drop_last()) + gantt_section_text(ss.last())
    }
}

/// The schedule diagram text: kind, date format and title headers, a blank
/// line, then the section blocks.
pub open spec fn spec_render_gantt(g: GanttChartV) -> Seq<char> {
    "gantt"@ + "\n    dateFormat  "@ + g.date_format + "\n    title       "@ + g.title
        + "\n"@ + gantt_sections_text(g.sections)
}

/// The category lines of a pie, in order: quoted label, colon, count.
pub open spec fn pie_cats_text(cats: Seq<(Seq<char>, u64)>) -> Seq<char>
    decreases cats.len(),
{
    if cats.len() == 0 {
        Seq::empty()
    } else {
        pie_cats_text(cats.drop_last()) + "\n    \""@ + cats.last().0 + "\" : "@ + dec_text(
            cats.last().1 as int,
        )
    }
}

/// The pie diagram text: kind and title headers, then the category lines.
pub open spec fn spec_render_pie(p: PieChartV) -> Seq<char> {
    "pie"@ + "\n    title "@ + p.title + pie_cats_text(p.categories)
}

/// The labels quoted and joined with commas.
pub open spec fn quoted_join(ls: Seq<Seq<char>>) -> Seq<char>
    decreases ls.len(),
{
    if ls.len() == 0 {
        Seq::empty()
    } else if ls.len() == 1 {
        "\""@ + ls[0] + "\""@
    } else {
        quoted_join(ls.drop_last()) + ", "@ + "\""@ + ls.last() + "\""@
    }
}

/// The numbers joined with commas.
pub open spec fn counts_join(vs: Seq<u64>) -> Seq<char>
    decreases vs.len(),
{
    if vs.len() == 0 {
        Seq::empty()
    } else if vs.len() == 1 {
        dec_text(vs[0] as int)
    } else {
        counts_join(vs.drop_last()) + ", "@ + dec_text(vs.last() as int)
    }
}

/// The bar diagram text: kind and quoted title, the bracketed axis labels,
/// the value range with headroom, and the bracketed values.
pub open spec fn spec_render_bar(b: BarChartV) -> Seq<char> {
    "xychart-beta"@ + "\n    title \""@ + b.title + "\""@ + "\n    x-axis ["@ + "\n        "@
        + quoted_join(b.x_axis) + "\n    ]"@ + "\n    y-axis \""@ + b.y_axis_label
        + "\" 0 --> "@ + dec_text(b.max_value + 5) + "\n    bar ["@ + counts_join(b.values)
        + "]"@
}

/// The axis label of one point: the `MM/DD` form of its date when the date
/// parses, the date text itself otherwise.
pub open spec fn point_label(date: Seq<char>) -> Seq<char> {
    match iso_date_num(date) {
        Some(d) => month_day_text(d),
        None => date,
    }
}

/// The point labels quoted and joined with commas.
pub open spec fn point_labels_join(series: Seq<(Seq<char>, int)>) -> Seq<char>
    decreases series.len(),
{
    if series.len() == 0 {
        Seq::empty()
    } else if series.len() == 1 {
        "\""@ + point_label(series[0].0) + "\""@
    } else {
        point_labels_join(series.drop_last()) + ", "@ + "\""@ + point_label(
            series.last().0,
        ) + "\""@
    }
}

/// The text of one metric value: whole values as integers, others to one
/// decimal place, rounding half away from zero.
pub open spec fn metric_value_text(m: int) -> Seq<char> {
    let mag = if m >= 0 {
        m
    } else {
        -m
    };
    if mag % 1_000_000 == 0 {
        (if m < 0 {
            seq!['-']
        } else {
            Seq::empty()
        }) + dec_text(mag / 1_000_000)
    } else {
        let tenths = (mag + 50_000) / 100_000;
        (if m < 0 {
            seq!['-']
        } else {
            Seq::empty()
        }) + dec_text(tenths / 10) + seq!['.'] + seq![dec_digit(tenths % 10)]
    }
}

/// The point values joined with commas.
pub open spec fn point_values_join(series: Seq<(Seq<char>, int)>) -> Seq<char>
    decreases series.len(),
{
    if series.len() == 0 {
        Seq::empty()
    } else if series.len() == 1 {
        metric_value_text(series[0].1)
    } else {
        point_values_join(series.drop_last()) + ", "@ + metric_value_text(series.last().1)
    }
}

/// The largest point value, at least zero.
pub open spec fn line_peak(series: Seq<(Seq<char>, int)>) -> int
    decreases series.len(),
{
    if series.len() == 0 {
        0
    } else if series.last().1 >= line_peak(series.drop_last()) {
        series.last().1
    } else {
        line_peak(series.drop_last())
    }
}

/// The line diagram text: kind and quoted title, the bracketed point
/// labels, the value range (the peak rounded up to whole units, plus
/// headroom), and the bracketed values.
pub open spec fn spec_render_line(l: LineChartV) -> Seq<char> {
    "xychart-beta"@ + "\n    title \""@ + l.title + "\""@ + "\n    x-axis ["@ + "\n        "@
        + point_labels_join(l.series) + "\n    ]"@ + "\n    y-axis \""@ + l.y_axis_label
        + "\" 0 --> "@ + dec_text((line_peak(l.series) + 999_999) / 1_000_000 + 5)
        + "\n    line ["@ + point_values_join(l.series) + "]"@
}

/// Renders the schedule document.
pub fn render_gantt(g: &GanttChart) -> (r: String)
    ensures
        r@ == spec_render_gantt(g@),
{
    let mut out = String::new();
    out.append("gantt");
    out.append("\n    dateFormat  ");
    out.append(g.date_format.as_str());
    out.append("\n    title       ");
    out.append(g.title.as_str());
    out.append("\n");
    let ghost header = out@;
    let mut i: usize = 0;
    proof {
        assert(gantt_sections_text(g@.sections.take(0)) =~= Seq::<char>::empty());
        assert(out@ =~= header + gantt_sections_text(g@.sections.take(0)));
    }
    while i < g.sections.len()
        invariant
            0 <= i <= g.sections@.len(),
            g@.sections.len() == g.sections@.len(),
            forall|k: int| 0 <= k < g.sections@.len() ==> g@.sections[k] == (
            #[trigger] g.sections@[k])@,
            out@ == header + gantt_sections_text(g@.sections.take(i as int)),
        decreases g.sections@.len() - i,
    {
        let sec = &g.sections[i];
        out.append("\n    section ");
        out.append(sec.name.as_str());
        let ghost sec_head = out@;
        let mut j: usize = 0;
        proof {
            assert(gantt_tasks_text(sec@.tasks.take(0)) =~= Seq::<char>::empty());
            assert(out@ =~= sec_head + gantt_tasks_text(sec@.tasks.take(0)));
        }
        while j < sec.tasks.len()
            invariant
                0 <= j <= sec.tasks@.len(),
                sec@.tasks.len() == sec.tasks@.len(),
                forall|k: int| 0 <= k < sec.tasks@.len() ==> sec@.tasks[k] == (
                #[trigger] sec.tasks@[k])@,
                out@ == sec_head + gantt_tasks_text(sec@.tasks.take(j as int)),
            decreases sec.tasks@.len() - j,
        {
            let task = &sec.tasks[j];
            out.append("\n    ");
            out.append(task.title.as_str());
            match &task.depends_on {
                Some(dep) => {
                    out.append(" :after ");
                    push_slug(&mut out, dep.as_str());
                    out.append(", ");
                    out.append(task.start.as_str());
                    out.append("~");
                    out.append(task.end.as_str());
                },
                None => {
                    out.append(" :");
                    out.append(task.start.as_str());
                    out.append(", ");
                    out.append(task.end.as_str());
                },
            }
            proof {
                assert(sec@.tasks.take(j + 1).drop_last() =~= sec@.tasks.take(j as int));
                assert(sec@.tasks.take(j + 1).last() == sec@.tasks[j as int]);
                assert(out@ =~= sec_head + gantt_tasks_text(sec@.tasks.take(j + 1)));
            }
            j = j + 1;
        }
        proof {
            assert(sec@.tasks.take(sec.tasks@.len() as int) =~= sec@.tasks);
            assert(g@.sections.take(i + 1).drop_last() =~= g@.sections.take(i as int));
            assert(g@.sections.take(i + 1).last() == g@.sections[i as int]);
            assert(out@ =~= header + gantt_sections_text(g@.sections.take(i + 1)));
        }
        i = i + 1;
    }
    proof {
        assert(g@.sections.take(g.sections@.len() as int) =~= g@.sections);
        assert(out@ =~= spec_render_gantt(g@));
    }
    out
}

/// Renders the pie document.
pub fn render_pie(p: &PieChart) -> (r: String)
    ensures
        r@ == spec_render_pie(p@),
{
    let mut out = String::new();
    out.append("pie");
    out.append("\n    title ");
    out.append(p.title.as_str());
    let ghost header = out@;
    let mut i: usize = 0;
    proof {
        assert(pie_cats_text(p@.categories.take(0)) =~= Seq::<char>::empty());
        assert(out@ =~= header + pie_cats_text(p@.categories.take(0)));
    }
    while i < p.categories.len()
        invariant
            0 <= i <= p.categories@.len(),
            p@.categories.len() == p.categories@.len(),
            forall|k: int| 0 <= k < p.categories@.len() ==> p@.categories[k] == ((
            #[trigger] p.categories@[k]).label@, p.categories@[k].count),
            out@ == header + pie_cats_text(p@.categories.take(i as int)),
        decreases p.categories@.len() - i,
    {
        let cat = &p.categories[i];
        out.append("\n    \"");
        out.append(cat.label.as_str());
        out.append("\" : ");
        push_number(&mut out, cat.count as u128);
        proof {
            assert(p@.categories.take(i + 1).drop_last() =~= p@.categories.take(i as int));
            assert(p@.categories.take(i + 1).last() == p@.categories[i as int]);
            assert(out@ =~= header + pie_cats_text(p@.categories.take(i + 1)));
        }
        i = i + 1;
    }
    proof {
        assert(p@.categories.take(p.categories@.len() as int) =~= p@.categories);
        assert(out@ =~= spec_render_pie(p@));
    }
    out
}

/// Renders the bar document. The recorded maximum must leave room for the
/// axis headroom, as the builders guarantee.
pub fn render_bar(b: &BarChart) -> (r: String)
    requires
        b.max_value + 5 <= u64::MAX,
    ensures
        r@ == spec_render_bar(b@),
{
    let mut out = String::new();
    out.append("xychart-beta");
    out.append("\n    title \"");
    out.append(b.title.as_str());
    out.append("\"");
    out.append("\n    x-axis [");
    out.append("\n        ");
    let ghost pre_labels = out@;
    let mut i: usize = 0;
    proof {
        assert(quoted_join(b@.x_axis.take(0)) =~= Seq::<char>::empty());
        assert(out@ =~= pre_labels + quoted_join(b@.x_axis.take(0)));
    }
    while i < b.x_axis.len()
        invariant
            0 <= i <= b.x_axis@.len(),
            b@.x_axis.len() == b.x_axis@.len(),
            forall|k: int| 0 <= k < b.x_axis@.len() ==> b@.x_axis[k] == (
            #[trigger] b.x_axis@[k])@,
            out@ == pre_labels + quoted_join(b@.x_axis.take(i as int)),
        decreases b.x_axis@.len() - i,
    {
        if i > 0 {
            out.append(", ");
        }
        out.append("\"");
        out.append(b.x_axis[i].as_str());
        out.append("\"");
        proof {
            assert(b@.x_axis.take(i + 1).drop_last() =~= b@.x_axis.take(i as int));
            assert(b@.x_axis.take(i + 1).last() == b@.x_axis[i as int]);
            if i == 0 {
                assert(b@.x_axis.take(1).len() == 1);
            }
            assert(out@ =~= pre_labels + quoted_join(b@.x_axis.take(i + 1)));
        }
        i = i + 1;
    }
    proof {
        assert(b@.x_axis.take(b.x_axis@.len() as int) =~= b@.x_axis);
    }
    out.append("\n    ]");
    out.append("\n    y-axis \"");
    out.append(b.y_axis_label.as_str());
    out.append("\" 0 --> ");
    push_number(&mut out, (b.max_value + 5) as u128);
    out.append("\n    bar [");
    let ghost pre_vals = out@;
    let mut k: usize = 0;
    proof {
        assert(counts_join(b@.values.take(0)) =~= Seq::<char>::empty());
        assert(out@ =~= pre_vals + counts_join(b@.values.take(0)));
    }
    while k < b.values.len()
        invariant
            0 <= k <= b.values@.len(),
            b@.values == b.values@,
            out@ == pre_vals + counts_join(b@.values.take(k as int)),
        decreases b.values@.len() - k,
    {
        if k > 0 {
            out.append(", ");
        }
        push_number(&mut out, b.values[k] as u128);
        proof {
            assert(b@.values.take(k + 1).drop_last() =~= b@.values.take(k as int));
            assert(b@.values.take(k + 1).last() == b@.values[k as int]);
            if k == 0 {
                assert(b@.values.take(1).len() == 1);
            }
            assert(out@ =~= pre_vals + counts_join(b@.values.take(k + 1)));
        }
        k = k + 1;
    }
    proof {
        assert(b@.values.take(b.values@.len() as int) =~= b@.values);
    }
    out.append("]");
    proof {
        assert(out@ =~= spec_render_bar(b@));
    }
    out
}

/// Whether every point value of the line stays within what the record
/// count allows, as the builder guarantees.
pub open spec fn line_values_bounded(l: LineChart) -> bool {
    forall|k: int|
        0 <= k < l.series@.len() ==> -(MAX_METRIC_TASKS as int) * VALUE_MAGNITUDE <= (
        #[trigger] l.series@[k]).value.micros <= (MAX_METRIC_TASKS as int)
            * VALUE_MAGNITUDE
}

/// Appends the text of one metric value.
fn push_metric_value(out: &mut String, v: MetricValue)
    ensures
        final(out)@ == old(out)@ + metric_value_text(v.micros as int),
{
    let m = v.micros;
    let mag: u128 = if m >= 0 {
        m as u128
    } else {
        ((-(m + 1)) as u128) + 1
    };
    if m < 0 {
        proof {
            reveal_strlit("-");
            assert("-"@ =~= seq!['-']);
        }
        out.append("-");
    }
    if mag % 1_000_000 == 0 {
        push_number(out, mag / 1_000_000);
    } else {
        let tenths: u128 = (mag + 50_000) / 100_000;
        push_number(out, tenths / 10);
        proof {
            reveal_strlit(".");
            assert("."@ =~= seq!['.']);
        }
        out.append(".");
        let d: u128 = tenths % 10;
        crate::text::push_digit(out, d);
        proof {
            assert(dec_text(d as int) =~= seq![dec_digit(d as int)]);
        }
    }
    proof {
        let ghost mi = m as int;
        let ghost smag = if mi >= 0 {
            mi
        } else {
            -mi
        };
        assert(mag as int == smag);
        assert(out@ =~= old(out)@ + metric_value_text(mi));
    }
}

/// Renders the line document. Every point value must stay within what the
/// record count allows, as the builder guarantees.
pub fn render_line(l: &LineChart) -> (r: String)
    requires
        line_values_bounded(*l),
    ensures
        r@ == spec_render_line(l@),
{
    let mut out = String::new();
    out.append("xychart-beta");
    out.append("\n    title \"");
    out.append(l.title.as_str());
    out.append("\"");
    out.append("\n    x-axis [");
    out.append("\n        ");
    let ghost pre_labels = out@;
    let mut i: usize = 0;
    proof {
        assert(point_labels_join(l@.series.take(0)) =~= Seq::<char>::empty());
        assert(out@ =~= pre_labels + point_labels_join(l@.series.take(0)));
    }
    while i < l.series.len()
        invariant
            0 <= i <= l.series@.len(),
            l@.series.len() == l.series@.len(),
            forall|k: int| 0 <= k < l.series@.len() ==> l@.series[k] == ((
            #[trigger] l.series@[k]).date@, l.series@[k].value.micros as int),
            out@ == pre_labels + point_labels_join(l@.series.take(i as int)),
        decreases l.series@.len() - i,
    {
        if i > 0 {
            out.append(", ");
        }
        out.append("\"");
        let point = &l.series[i];
        match parse_iso_date(point.date.as_str()) {
            Some(d) => {
                let label = format_month_day(d);
                out.append(label.as_str());
            },
            None => {
                out.append(point.date.as_str());
            },
        }
        out.append("\"");
        proof {
            assert(l@.series.take(i + 1).drop_last() =~= l@.series.take(i as int));
            assert(l@.series.take(i + 1).last() == l@.series[i as int]);
            if i == 0 {
                assert(l@.series.take(1).len() == 1);
            }
            assert(out@ =~= pre_labels + point_labels_join(l@.series.take(i + 1)));
        }
        i = i + 1;
    }
    proof {
        assert(l@.series.take(l.series@.len() as int) =~= l@.series);
    }
    out.append("\n    ]");
    out.append("\n    y-axis \"");
    out.append(l.y_axis_label.as_str());
    out.append("\" 0 --> ");
    let mut peak: i128 = 0;
    let mut k: usize = 0;
    while k < l.series.len()
        invariant
            0 <= k <= l.series@.len(),
            line_values_bounded(*l),
            l@.series.len() == l.series@.len(),
            forall|j: int| 0 <= j < l.series@.len() ==> l@.series[j] == ((
            #[trigger] l.series@[j]).date@, l.series@[j].value.micros as int),
            peak as int == line_peak(l@.series.take(k as int)),
            0 <= peak <= (MAX_METRIC_TASKS as int) * VALUE_MAGNITUDE,
        decreases l.series@.len() - k,
    {
        let v = l.series[k].value.micros;
        proof {
            assert(l@.series.take(k + 1).drop_last() =~= l@.series.take(k as int));
            assert(l@.series.take(k + 1).last() == l@.series[k as int]);
        }
        if v > peak {
            peak = v;
        }
        k = k + 1;
    }
    proof {
        assert(l@.series.take(l.series@.len() as int) =~= l@.series);
    }
    let axis: u128 = ((peak as u128) + 999_999) / 1_000_000 + 5;
    proof {
        assert(axis as int == (line_peak(l@.series) + 999_999) / 1_000_000 + 5);
    }
    push_number(&mut out, axis);
    out.append("\n    line [");
    let ghost pre_vals = out@;
    let mut j: usize = 0;
    proof {
        assert(point_values_join(l@.series.take(0)) =~= Seq::<char>::empty());
        assert(out@ =~= pre_vals + point_values_join(l@.series.take(0)));
    }
    while j < l.series.len()
        invariant
            0 <= j <= l.series@.len(),
            l@.series.len() == l.series@.len(),
            forall|k2: int| 0 <= k2 < l.series@.len() ==> l@.series[k2] == ((
            #[trigger] l.series@[k2]).date@, l.series@[k2].value.micros as int),
            out@ == pre_vals + point_values_join(l@.series.take(j as int)),
        decreases l.series@.len() - j,
    {
        if j > 0 {
            out.append(", ");
        }
        push_metric_value(&mut out, l.series[j].value);
        proof {
            assert(l@.series.take(j + 1).drop_last() =~= l@.series.take(j as int));
            assert(l@.series.take(j + 1).last() == l@.series[j as int]);
            if j == 0 {
                assert(l@.series.take(1).len() == 1);
            }
            assert(out@ =~= pre_vals + point_values_join(l@.series.take(j + 1)));
        }
        j = j + 1;
    }
    proof {
        assert(l@.series.take(l.series@.len() as int) =~= l@.series);
    }
    out.append("]");
    proof {
        assert(out@ =~= spec_render_line(l@));
    }
    out
}

/// A label fit for unambiguous rendering: free of line breaks and quotes.
pub open spec fn pie_label_wf(l: Seq<char>) -> bool {
    forall|i: int| 0 <= i < l.len() ==> (#[trigger] l[i]) != '\n' && l[i] != '"'
}

/// A pie document fit for unambiguous rendering: the title holds no line
/// break and every label is well formed.
pub open spec fn pie_wf(p: PieChartV) -> bool {
    &&& forall|i: int| 0 <= i < p.title.len() ==> (#[trigger] p.title[i]) != '\n'
    &&& forall|k: int| 0 <= k < p.categories.len() ==> pie_label_wf(
        (#[trigger] p.categories[k]).0,
    )
}

/// One category line of the pie text.
pub open spec fn pie_cat_entry(l: Seq<char>, c: u64) -> Seq<char> {
    "\n    \""@ + l + "\" : "@ + dec_text(c as int)
}

/// The shape of one category line: it opens the line, and line breaks
/// never recur inside it when the label is well formed.
proof fn lemma_pie_entry(l: Seq<char>, c: u64)
    requires
        pie_label_wf(l),
    ensures
        pie_cat_entry(l, c).len() == 10 + l.len() + dec_text(c as int).len(),
        pie_cat_entry(l, c)[0] == '\n',
        forall|i: int| 1 <= i < pie_cat_entry(l, c).len() ==> (#[trigger] pie_cat_entry(
            l,
            c,
        )[i]) != '\n',
{
    broadcast use vstd::seq::group_seq_axioms;

    reveal_strlit("\n    \"");
    reveal_strlit("\" : ");
    lemma_dec_text_digits(c as int);
    let head = "\n    \""@;
    let mid = "\" : "@;
    let dec = dec_text(c as int);
    let e = pie_cat_entry(l, c);
    assert(head.len() == 6);
    assert(mid.len() == 4);
    assert(e.len() == 10 + l.len() + dec.len());
    assert(e[0] == head[0]);
    assert forall|i: int| 1 <= i < e.len() implies (#[trigger] e[i]) != '\n' by {
        if i < 6 {
            assert(e[i] == head[i]);
        } else if i < 6 + l.len() {
            assert(e[i] == l[i - 6]);
        } else if i < 10 + l.len() {
            assert(e[i] == mid[i - 6 - l.len()]);
        } else {
            assert(e[i] == dec[i - 10 - l.len()]);
            assert(crate::text::is_digit_char(dec[i - 10 - l.len()]));
        }
    }
}

/// The category lines open with a line break and are never empty.
proof fn lemma_pie_cats_head(cats: Seq<(Seq<char>, u64)>)
    requires
        cats.len() > 0,
        forall|k: int| 0 <= k < cats.len() ==> pie_label_wf((#[trigger] cats[k]).0),
    ensures
        pie_cats_text(cats).len() >= 11,
        pie_cats_text(cats)[0] == '\n',
    decreases cats.len(),
{
    broadcast use vstd::seq::group_seq_axioms;

    let pre = pie_cats_text(cats.drop_last());
    let e = pie_cat_entry(cats.last().0, cats.last().1);
    lemma_pie_entry(cats.last().0, cats.last().1);
    assert(pie_cats_text(cats) =~= pre + e);
    if cats.len() == 1 {
        assert(pre =~= Seq::<char>::empty());
        assert(pie_cats_text(cats) =~= e);
    } else {
        assert(forall|k: int|
            0 <= k < cats.drop_last().len() ==> pie_label_wf(
                (#[trigger] cats.drop_last()[k]).0,
            ));
        lemma_pie_cats_head(cats.drop_last());
        assert(pie_cats_text(cats)[0] == pre[0]);
    }
}

/// Equal category-line texts come from equal categories.
proof fn lemma_pie_cats_injective(cs1: Seq<(Seq<char>, u64)>, cs2: Seq<(Seq<char>, u64)>)
    requires
        forall|k: int| 0 <= k < cs1.len() ==> pie_label_wf((#[trigger] cs1[k]).0),
        forall|k: int| 0 <= k < cs2.len() ==> pie_label_wf((#[trigger] cs2[k]).0),
        pie_cats_text(cs1) == pie_cats_text(cs2),
    ensures
        cs1 == cs2,
    decreases cs1.len() + cs2.len(),
{
    broadcast use vstd::seq::group_seq_axioms;

    if cs1.len() == 0 && cs2.len() == 0 {
        assert(cs1 =~= cs2);
    } else if cs1.len() == 0 {
        lemma_pie_cats_head(cs2);
    } else if cs2.len() == 0 {
        lemma_pie_cats_head(cs1);
    } else {
        let pre1 = pie_cats_text(cs1.drop_last());
        let pre2 = pie_cats_text(cs2.drop_last());
        let (l1, c1) = cs1.last();
        let (l2, c2) = cs2.last();
        let e1 = pie_cat_entry(l1, c1);
        let e2 = pie_cat_entry(l2, c2);
        lemma_pie_entry(l1, c1);
        lemma_pie_entry(l2, c2);
        assert(pie_cats_text(cs1) =~= pre1 + e1);
        assert(pie_cats_text(cs2) =~= pre2 + e2);
        assert(pre1 + e1 == pre2 + e2);
        lemma_last_char_split(pre1, e1, pre2, e2, '\n');
        // one category line determines its label and count
        reveal_strlit("\n    \"");
        reveal_strlit("\" : ");
        let head = "\n    \""@;
        let mid = "\" : "@;
        assert(e1 =~= head + (l1 + (mid + dec_text(c1 as int))));
        assert(e2 =~= head + (l2 + (mid + dec_text(c2 as int))));
        assert(head + (l1 + (mid + dec_text(c1 as int))) == head + (l2 + (mid + dec_text(
            c2 as int,
        ))));
        lemma_concat_cancel(
            head,
            l1 + (mid + dec_text(c1 as int)),
            l2 + (mid + dec_text(c2 as int)),
        );
        lemma_dec_text_digits(c1 as int);
        lemma_dec_text_digits(c2 as int);
        assert((mid + dec_text(c1 as int))[0] == '"');
        assert((mid + dec_text(c2 as int))[0] == '"');
        lemma_first_char_split(
            l1,
            mid + dec_text(c1 as int),
            l2,
            mid + dec_text(c2 as int),
            '"',
        );
        lemma_concat_cancel(mid, dec_text(c1 as int), dec_text(c2 as int));
        lemma_dec_text_injective(c1 as int, c2 as int);
        assert(forall|k: int|
            0 <= k < cs1.drop_last().len() ==> pie_label_wf(
                (#[trigger] cs1.drop_last()[k]).0,
            ));
        assert(forall|k: int|
            0 <= k < cs2.drop_last().len() ==> pie_label_wf(
                (#[trigger] cs2.drop_last()[k]).0,
            ));
        lemma_pie_cats_injective(cs1.drop_last(), cs2.drop_last());
        assert(cs1.last() == cs2.last());
        assert(cs1 =~= cs1.drop_last().push(cs1.last()));
        assert(cs2 =~= cs2.drop_last().push(cs2.last()));
    }
}

/// The pie rendering loses nothing: two well-formed documents with the
/// same diagram text carry the same title, labels and counts, so the
/// fields a reader parses back out of the text are the document's own.
pub proof fn lemma_pie_render_round_trip(p1: PieChartV, p2: PieChartV)
    requires
        pie_wf(p1),
        pie_wf(p2),
        spec_render_pie(p1) == spec_render_pie(p2),
    ensures
        p1.title == p2.title,
        p1.categories == p2.categories,
{
    broadcast use vstd::seq::group_seq_axioms;

    let head = "pie"@ + "\n    title "@;
    assert(spec_render_pie(p1) =~= head + (p1.title + pie_cats_text(p1.categories)));
    assert(spec_render_pie(p2) =~= head + (p2.title + pie_cats_text(p2.categories)));
    assert(head + (p1.title + pie_cats_text(p1.categories)) == head + (p2.title
        + pie_cats_text(p2.categories)));
    lemma_concat_cancel(
        head,
        p1.title + pie_cats_text(p1.categories),
        p2.title + pie_cats_text(p2.categories),
    );
    let ct1 = pie_cats_text(p1.categories);
    let ct2 = pie_cats_text(p2.categories);
    if p1.categories.len() == 0 && p2.categories.len() == 0 {
        assert(ct1 =~= Seq::<char>::empty());
        assert(ct2 =~= Seq::<char>::empty());
        assert(p1.title =~= p1.title + ct1);
        assert(p2.title =~= p2.title + ct2);
        assert(p1.categories =~= p2.categories);
    } else if p1.categories.len() == 0 {
        lemma_pie_cats_head(p2.categories);
        assert(ct1 =~= Seq::<char>::empty());
        assert(p1.title =~= p1.title + ct1);
        assert((p2.title + ct2)[p2.title.len() as int] == ct2[0]);
        assert(p1.title[p2.title.len() as int] == '\n');
    } else if p2.categories.len() == 0 {
        lemma_pie_cats_head(p1.categories);
        assert(ct2 =~= Seq::<char>::empty());
        assert(p2.title =~= p2.title + ct2);
        assert((p1.title + ct1)[p1.title.len() as int] == ct1[0]);
        assert(p2.title[p1.title.len() as int] == '\n');
    } else {
        lemma_pie_cats_head(p1.categories);
        lemma_pie_cats_head(p2.categories);
        lemma_first_char_split(p1.title, ct1, p2.title, ct2, '\n');
        lemma_pie_cats_injective(p1.categories, p2.categories);
    }
}

/// The gantt sections text opens with a line break when any section
/// stands in it.
proof fn lemma_gantt_sections_head(ss: Seq<GanttSectionV>)
    requires
        ss.len() > 0,
    ensures
        gantt_sections_text(ss).len() > 0,
        gantt_sections_text(ss)[0] == '\n',
    decreases ss.len(),
{
    broadcast use vstd::seq::group_seq_axioms;

    reveal_strlit("\n    section ");
    let pre = gantt_sections_text(ss.drop_last());
    let e = gantt_section_text(ss.last());
    assert(e[0] == '\n') by {
        assert(e =~= "\n    section "@ + (ss.last().name + gantt_tasks_text(
            ss.last().tasks,
        )));
    }
    if ss.len() == 1 {
        assert(pre =~= Seq::<char>::empty());
        assert(gantt_sections_text(ss) =~= e);
    } else {
        lemma_gantt_sections_head(ss.drop_last());
        assert(gantt_sections_text(ss)[0] == pre[0]);
    }
}

/// The schedule rendering keeps its header fields: two well-formed
/// documents with the same diagram text carry the same date format and
/// title.
pub proof fn lemma_gantt_render_round_trip(g1: GanttChartV, g2: GanttChartV)
    requires
        forall|i: int| 0 <= i < g1.date_format.len() ==> (#[trigger] g1.date_format[i])
            != '\n',
        forall|i: int| 0 <= i < g2.date_format.len() ==> (#[trigger] g2.date_format[i])
            != '\n',
        forall|i: int| 0 <= i < g1.title.len() ==> (#[trigger] g1.title[i]) != '\n',
        forall|i: int| 0 <= i < g2.title.len() ==> (#[trigger] g2.title[i]) != '\n',
        spec_render_gantt(g1) == spec_render_gantt(g2),
    ensures
        g1.date_format == g2.date_format,
        g1.title == g2.title,
{
    broadcast use vstd::seq::group_seq_axioms;

    reveal_strlit("\n    dateFormat  ");
    reveal_strlit("\n    title       ");
    reveal_strlit("\n");
    let head = "gantt"@ + "\n    dateFormat  "@;
    let r1 = g1.date_format + ("\n    title       "@ + (g1.title + ("\n"@
        + gantt_sections_text(g1.sections))));
    let r2 = g2.date_format + ("\n    title       "@ + (g2.title + ("\n"@
        + gantt_sections_text(g2.sections))));
    assert(spec_render_gantt(g1) =~= head + r1);
    assert(spec_render_gantt(g2) =~= head + r2);
    assert(head + r1 == head + r2);
    lemma_concat_cancel(head, r1, r2);
    let t1 = "\n    title       "@ + (g1.title + ("\n"@ + gantt_sections_text(
        g1.sections,
    )));
    let t2 = "\n    title       "@ + (g2.title + ("\n"@ + gantt_sections_text(
        g2.sections,
    )));
    assert(t1[0] == '\n');
    assert(t2[0] == '\n');
    lemma_first_char_split(g1.date_format, t1, g2.date_format, t2, '\n');
    lemma_concat_cancel(
        "\n    title       "@,
        g1.title + ("\n"@ + gantt_sections_text(g1.sections)),
        g2.title + ("\n"@ + gantt_sections_text(g2.sections)),
    );
    let u1 = "\n"@ + gantt_sections_text(g1.sections);
    let u2 = "\n"@ + gantt_sections_text(g2.sections);
    assert(u1[0] == '\n');
    assert(u2[0] == '\n');
    lemma_first_char_split(g1.title, u1, g2.title, u2, '\n');
}

} // verus!
