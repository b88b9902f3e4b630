//! The schedule (Gantt) builder: select the tasks that carry a valid start
//! and end date, refuse the build when the dependency relation is cyclic,
//! order the selection by start date (ties by task id), and group it into
//! sections in first-seen order.
use vstd::multiset::Multiset;
use vstd::prelude::*;
use vstd::string::StringExecFns;

use crate::chart::GanttChart;
use crate::chart::GanttChartV;
use crate::chart::GanttSection;
use crate::chart::GanttSectionV;
use crate::chart::GanttTask;
use crate::chart::GanttTaskV;
use crate::cycle::acyclic;
use crate::cycle::detect_cyclic_dependencies;
use crate::dates::iso_date_num;
use crate::dates::parse_iso_date;
use crate::model::extract_tag_value_array;
use crate::model::extract_tag_value_string;
use crate::model::tag_array;
use crate::model::tag_string;
use crate::model::seq_at;
use crate::model::Task;
use crate::model::Workspace;
use crate::text::lemma_lex_le_antisym;
use crate::text::lemma_lex_le_total;
use crate::text::lemma_lex_le_trans;
use crate::text::lex_le;
use crate::text::push_title;
use crate::text::str_eq;
use crate::text::title_text;

verus! {

/// The resolved build parameters: the five field keys and the optional
/// date-range filter (bounds as day counts).
pub struct SchedParams {
    pub title_key: Seq<char>,
    pub start_key: Seq<char>,
    pub end_key: Seq<char>,
    pub depends_key: Seq<char>,
    pub section_key: Seq<char>,
    pub filter_active: bool,
    pub filter_field: Option<Seq<char>>,
    pub lo: Option<int>,
    pub hi: Option<int>,
}

/// The day count of the date text a task carries under `key`, when the
/// value is a string that parses as a date.
pub open spec fn date_num_of(t: Task, key: Seq<char>) -> Option<int> {
    match tag_string(t, key) {
        Some(s) => iso_date_num(s),
        None => None,
    }
}

/// Whether a task carries parsable dates under both date keys.
pub open spec fn sched_eligible(t: Task, p: SchedParams) -> bool {
    date_num_of(t, p.start_key) is Some && date_num_of(t, p.end_key) is Some
}

/// Whether a day count lies within the optional inclusive bounds.
pub open spec fn in_bounds(d: int, lo: Option<int>, hi: Option<int>) -> bool {
    &&& (lo matches Some(l) ==> d >= l)
    &&& (hi matches Some(h) ==> d <= h)
}

/// The date-range test: with a filter field, the field's date must lie in
/// the range; without one, the task's own `start_date`..`end_date` span
/// must overlap the range; a task without the dates involved fails.
pub open spec fn spec_matches_date_filter(
    t: Task,
    field: Option<Seq<char>>,
    lo: Option<int>,
    hi: Option<int>,
) -> bool {
    if field matches Some(f) && f.len() > 0 {
        match date_num_of(t, field->0) {
            Some(d) => in_bounds(d, lo, hi),
            None => false,
        }
    } else {
        match (date_num_of(t, "start_date"@), date_num_of(t, "end_date"@)) {
            (Some(ts), Some(te)) => (hi matches Some(h) ==> ts <= h) && (lo matches Some(l)
                ==> te >= l),
            _ => false,
        }
    }
}

/// Whether the builder keeps `t`: eligible, and inside the date range when
/// a range filter is active.
pub open spec fn sched_keep(t: Task, p: SchedParams) -> bool {
    sched_eligible(t, p) && (p.filter_active ==> spec_matches_date_filter(
        t,
        p.filter_field,
        p.lo,
        p.hi,
    ))
}

/// The subsequence of tasks the builder keeps.
pub open spec fn sched_selected(tasks: Seq<Task>, p: SchedParams) -> Seq<Task>
    decreases tasks.len(),
{
    if tasks.len() == 0 {
        Seq::empty()
    } else if sched_keep(tasks.last(), p) {
        sched_selected(tasks.drop_last(), p).push(tasks.last())
    } else {
        sched_selected(tasks.drop_last(), p)
    }
}

/// The start-date text of an eligible task.
pub open spec fn start_text(t: Task, p: SchedParams) -> Seq<char> {
    tag_string(t, p.start_key)->0
}

/// The builder's task order: by start-date text, ties by task id.
pub open spec fn task_le(t1: Task, t2: Task, p: SchedParams) -> bool {
    if start_text(t1, p) == start_text(t2, p) {
        lex_le(t1.id@, t2.id@)
    } else {
        lex_le(start_text(t1, p), start_text(t2, p))
    }
}

/// Whether `s` is ordered under the builder's task order, pairwise.
pub open spec fn task_sorted(s: Seq<Task>, p: SchedParams) -> bool {
    forall|i: int, j: int| 0 <= i < j < s.len() ==> task_le(#[trigger] s[i], #[trigger] s[j], p)
}

/// Whether the ids of `s` are pairwise distinct.
pub open spec fn distinct_ids(s: Seq<Task>) -> bool {
    forall|i: int, j: int| 0 <= i < j < s.len() ==> (#[trigger] s[i]).id@ != (#[trigger] s[j]).id@
}

/// The ordered arrangement of a multiset of tasks: the sequence that the
/// builder's task order sorts.
pub open spec fn sorted_of(m: Multiset<Task>, p: SchedParams) -> Seq<Task> {
    choose|t: Seq<Task>| t.to_multiset() == m && task_sorted(t, p)
}

/// The ordered arrangement of `s`: the unique permutation of `s` that the
/// builder's task order sorts.
pub open spec fn sorted_arrangement(s: Seq<Task>, p: SchedParams) -> Seq<Task> {
    sorted_of(s.to_multiset(), p)
}

/// The builder's task order relates every pair of tasks.
pub proof fn lemma_task_le_total(t1: Task, t2: Task, p: SchedParams)
    ensures
        task_le(t1, t2, p) || task_le(t2, t1, p),
{
    lemma_lex_le_total(start_text(t1, p), start_text(t2, p));
    lemma_lex_le_total(t1.id@, t2.id@);
}

/// The builder's task order is transitive.
pub proof fn lemma_task_le_trans(t1: Task, t2: Task, t3: Task, p: SchedParams)
    requires
        task_le(t1, t2, p),
        task_le(t2, t3, p),
    ensures
        task_le(t1, t3, p),
{
    let s1 = start_text(t1, p);
    let s2 = start_text(t2, p);
    let s3 = start_text(t3, p);
    if s1 == s2 && s2 == s3 {
        lemma_lex_le_trans(t1.id@, t2.id@, t3.id@);
    } else if s1 == s2 {
        assert(s1 != s3);
        assert(lex_le(s1, s3));
    } else if s2 == s3 {
        assert(s1 != s3);
        assert(lex_le(s1, s3));
    } else {
        lemma_lex_le_trans(s1, s2, s3);
        assert(s1 != s3) by {
            if s1 == s3 {
                lemma_lex_le_antisym(s1, s2);
            }
        }
    }
}

/// Tasks below one another in the builder's order share start and id.
pub proof fn lemma_task_le_antisym(t1: Task, t2: Task, p: SchedParams)
    requires
        task_le(t1, t2, p),
        task_le(t2, t1, p),
    ensures
        t1.id@ == t2.id@,
{
    if start_text(t1, p) == start_text(t2, p) {
        lemma_lex_le_antisym(t1.id@, t2.id@);
    } else {
        lemma_lex_le_antisym(start_text(t1, p), start_text(t2, p));
    }
}

/// Two sorted sequences with the same elements and pairwise distinct ids
/// are equal.
pub proof fn lemma_sorted_unique(x: Seq<Task>, y: Seq<Task>, p: SchedParams)
    requires
        task_sorted(x, p),
        task_sorted(y, p),
        distinct_ids(x),
        x.to_multiset() == y.to_multiset(),
    ensures
        x == y,
    decreases x.len(),
{
    broadcast use vstd::seq_lib::group_to_multiset_ensures;

    if x.len() == 0 {
        assert(y.to_multiset().len() == 0);
        assert(x =~= y);
    } else {
        assert(x.len() == x.to_multiset().len());
        assert(y.len() == y.to_multiset().len());
        assert(y.len() == x.len());
        assert(x.to_multiset().contains(x[0]));
        assert(y.contains(x[0]));
        assert(y.to_multiset().contains(y[0]));
        assert(x.contains(y[0]));
        let i = choose|i: int| 0 <= i < x.len() && x[i] == y[0];
        let k = choose|k: int| 0 <= k < y.len() && y[k] == x[0];
        if i > 0 {
            assert(task_le(x[0], x[i], p));
        }
        if k > 0 {
            assert(task_le(y[0], y[k], p));
        }
        assert(task_le(x[0], y[0], p) || x[0] == y[0]) by {
            if i == 0 {
            } else {
                lemma_task_le_total(x[0], y[0], p);
            }
        }
        assert(x[0] == y[0]) by {
            if x[0] != y[0] {
                assert(task_le(x[0], x[i], p) || i == 0);
                assert(task_le(y[0], y[k], p) || k == 0);
                if i == 0 {
                } else if k == 0 {
                } else {
                    lemma_task_le_antisym(x[0], y[0], p);
                    // equal ids at two positions of x
                    assert(x[i] == y[0]);
                    assert(x[0].id@ == x[i].id@);
                }
            }
        }
        assert(x.drop_first().to_multiset() =~= x.to_multiset().remove(x[0])) by {
            assert(x.remove(0) =~= x.drop_first());
        }
        assert(y.drop_first().to_multiset() =~= y.to_multiset().remove(y[0])) by {
            assert(y.remove(0) =~= y.drop_first());
        }
        assert(task_sorted(x.drop_first(), p)) by {
            assert(forall|a: int, b: int|
                0 <= a < b < x.drop_first().len() ==> task_le(
                    #[trigger] x.drop_first()[a],
                    #[trigger] x.drop_first()[b],
                    p,
                ));
        }
        assert(task_sorted(y.drop_first(), p)) by {
            assert(forall|a: int, b: int|
                0 <= a < b < y.drop_first().len() ==> task_le(
                    #[trigger] y.drop_first()[a],
                    #[trigger] y.drop_first()[b],
                    p,
                ));
        }
        assert(distinct_ids(x.drop_first())) by {
            assert(forall|a: int, b: int|
                0 <= a < b < x.drop_first().len() ==> (#[trigger] x.drop_first()[a]).id@
                    != (#[trigger] x.drop_first()[b]).id@);
        }
        lemma_sorted_unique(x.drop_first(), y.drop_first(), p);
        assert(x =~= seq![x[0]] + x.drop_first());
        assert(y =~= seq![y[0]] + y.drop_first());
    }
}

/// The section label of a task: the section field's string value, the
/// `unclassified` bucket when it is missing, or the single `Tasks` bucket
/// when no section key is configured.
pub open spec fn section_name_of(t: Task, p: SchedParams) -> Seq<char> {
    if p.section_key.len() > 0 {
        match tag_string(t, p.section_key) {
            Some(s) => s,
            None => "unclassified"@,
        }
    } else {
        "Tasks"@
    }
}

/// The scheduled-task view the builder derives from one task.
pub open spec fn gantt_task_of(t: Task, p: SchedParams) -> GanttTaskV {
    GanttTaskV {
        id: t.id@,
        title: if p.title_key.len() > 0 {
            match tag_string(t, p.title_key) {
                Some(s) => s,
                None => title_text(t.id@),
            }
        } else {
            title_text(t.id@)
        },
        start: tag_string(t, p.start_key)->0,
        end: tag_string(t, p.end_key)->0,
        status: if p.section_key == "status"@ {
            tag_string(t, "status"@)
        } else {
            None
        },
        depends_on: if p.depends_key.len() == 0 {
            None
        } else {
            match tag_array(t, p.depends_key) {
                Some(a) => if a.len() > 0 {
                    Some(a[0])
                } else {
                    None
                },
                None => None,
            }
        },
    }
}

/// Appends a task view to the first section called `name`, or opens a new
/// section at the end.
pub open spec fn add_to_sections(
    secs: Seq<GanttSectionV>,
    name: Seq<char>,
    tv: GanttTaskV,
) -> Seq<GanttSectionV>
    decreases secs.len(),
{
    if secs.len() == 0 {
        seq![GanttSectionV { name: name, tasks: seq![tv] }]
    } else if secs[0].name == name {
        seq![
            GanttSectionV { name: secs[0].name, tasks: secs[0].tasks.push(tv) },
        ] + secs.drop_first()
    } else {
        seq![secs[0]] + add_to_sections(secs.drop_first(), name, tv)
    }
}

/// The sections formed by the ordered tasks, first-seen section order.
pub open spec fn build_sections(sorted: Seq<Task>, p: SchedParams) -> Seq<GanttSectionV>
    decreases sorted.len(),
{
    if sorted.len() == 0 {
        Seq::empty()
    } else {
        add_to_sections(
            build_sections(sorted.drop_last(), p),
            section_name_of(sorted.last(), p),
            gantt_task_of(sorted.last(), p),
        )
    }
}

/// The schedule document of a task collection: the fixed title and date
/// format over the sections of the ordered selection.
pub open spec fn spec_schedule(tasks: Seq<Task>, p: SchedParams) -> GanttChartV {
    GanttChartV {
        title: "Task Schedule"@,
        date_format: "YYYY-MM-DD"@,
        sections: build_sections(sorted_arrangement(sched_selected(tasks, p), p), p),
    }
}


/// The view of an optional borrowed text.
pub open spec fn opt_str_view(o: Option<&str>) -> Option<Seq<char>> {
    match o {
        Some(s) => Some(s@),
        None => None,
    }
}

/// The day count of an optional borrowed date text, when it parses.
pub open spec fn opt_date_num(o: Option<&str>) -> Option<int> {
    match o {
        Some(s) => iso_date_num(s@),
        None => None,
    }
}

/// The resolved parameters of one build call: absent field names fall back
/// to the defaults, and the range filter is active as soon as a filter
/// field or a parsable bound was given.
pub open spec fn resolved_params(
    title_field: Option<&str>,
    start_field: Option<&str>,
    end_field: Option<&str>,
    depends_on_field: Option<&str>,
    section_field: Option<&str>,
    filter_date_field: Option<&str>,
    start_date: Option<&str>,
    end_date: Option<&str>,
) -> SchedParams {
    SchedParams {
        title_key: match title_field {
            Some(s) => s@,
            None => Seq::empty(),
        },
        start_key: match start_field {
            Some(s) => s@,
            None => "start_date"@,
        },
        end_key: match end_field {
            Some(s) => s@,
            None => "end_date"@,
        },
        depends_key: match depends_on_field {
            Some(s) => s@,
            None => "depends_on"@,
        },
        section_key: match section_field {
            Some(s) => s@,
            None => "status"@,
        },
        filter_active: filter_date_field is Some || opt_date_num(start_date) is Some
            || opt_date_num(end_date) is Some,
        filter_field: opt_str_view(filter_date_field),
        lo: opt_date_num(start_date),
        hi: opt_date_num(end_date),
    }
}

/// Decides the date-range test for one task.
fn matches_date_filter(
    task: &Task,
    filter_date_field: Option<&str>,
    lo: Option<i32>,
    hi: Option<i32>,
) -> (r: bool)
    requires
        match lo {
            Some(l) => spec_lo(lo) == Some(l as int),
            None => spec_lo(lo) is None,
        },
        match hi {
            Some(h) => spec_lo(hi) == Some(h as int),
            None => spec_lo(hi) is None,
        },
    ensures
        r == spec_matches_date_filter(
            *task,
            opt_str_view(filter_date_field),
            spec_lo(lo),
            spec_lo(hi),
        ),
{
    let use_field: bool = match filter_date_field {
        Some(f) => !f.is_empty(),
        None => false,
    };
    if use_field {
        let f = match filter_date_field {
            Some(f) => f,
            None => "",
        };
        match extract_tag_value_string(task, f) {
            Some(s) => {
                match parse_iso_date(s.as_str()) {
                    Some(d) => {
                        let ok_lo: bool = match lo {
                            Some(l) => d >= l,
                            None => true,
                        };
                        let ok_hi: bool = match hi {
                            Some(h) => d <= h,
                            None => true,
                        };
                        ok_lo && ok_hi
                    },
                    None => false,
                }
            },
            None => false,
        }
    } else {
        let ts = match extract_tag_value_string(task, "start_date") {
            Some(s) => parse_iso_date(s.as_str()),
            None => None,
        };
        let te = match extract_tag_value_string(task, "end_date") {
            Some(s) => parse_iso_date(s.as_str()),
            None => None,
        };
        match (ts, te) {
            (Some(a), Some(b)) => {
                let ok_hi: bool = match hi {
                    Some(h) => a <= h,
                    None => true,
                };
                let ok_lo: bool = match lo {
                    Some(l) => b >= l,
                    None => true,
                };
                ok_hi && ok_lo
            },
            _ => false,
        }
    }
}

/// The day-count view of an optional parsed bound.
pub open spec fn spec_lo(o: Option<i32>) -> Option<int> {
    match o {
        Some(d) => Some(d as int),
        None => None,
    }
}

/// Decides whether the builder keeps one task.
fn keeps_task(
    task: &Task,
    start_key: &str,
    end_key: &str,
    filter_active: bool,
    filter_date_field: Option<&str>,
    lo: Option<i32>,
    hi: Option<i32>,
    Ghost(p): Ghost<SchedParams>,
) -> (r: bool)
    requires
        p.start_key == start_key@,
        p.end_key == end_key@,
        p.filter_active == filter_active,
        p.filter_field == opt_str_view(filter_date_field),
        p.lo == spec_lo(lo),
        p.hi == spec_lo(hi),
        match lo {
            Some(l) => spec_lo(lo) == Some(l as int),
            None => spec_lo(lo) is None,
        },
        match hi {
            Some(h) => spec_lo(hi) == Some(h as int),
            None => spec_lo(hi) is None,
        },
    ensures
        r == sched_keep(*task, p),
{
    let sd = match extract_tag_value_string(task, start_key) {
        Some(s) => parse_iso_date(s.as_str()),
        None => None,
    };
    let ed = match extract_tag_value_string(task, end_key) {
        Some(s) => parse_iso_date(s.as_str()),
        None => None,
    };
    if sd.is_none() || ed.is_none() {
        return false;
    }
    if !filter_active {
        return true;
    }
    matches_date_filter(task, filter_date_field, lo, hi)
}

/// Compares the builder's order of the tasks at two positions.
fn task_le_at(tasks: &Vec<Task>, a: usize, b: usize, start_key: &str, Ghost(p): Ghost<
    SchedParams,
>) -> (r: bool)
    requires
        p.start_key == start_key@,
        a < tasks@.len(),
        b < tasks@.len(),
        sched_eligible(tasks@[a as int], p),
        sched_eligible(tasks@[b as int], p),
    ensures
        r == task_le(tasks@[a as int], tasks@[b as int], p),
{
    let sa = match extract_tag_value_string(&tasks[a], start_key) {
        Some(s) => s,
        None => {
            proof {
                assert(false);
            }
            String::new()
        },
    };
    let sb = match extract_tag_value_string(&tasks[b], start_key) {
        Some(s) => s,
        None => {
            proof {
                assert(false);
            }
            String::new()
        },
    };
    if str_eq(sa.as_str(), sb.as_str()) {
        crate::text::str_lex_le(tasks[a].id.as_str(), tasks[b].id.as_str())
    } else {
        crate::text::str_lex_le(sa.as_str(), sb.as_str())
    }
}

/// The selection has pairwise distinct ids and draws from the tasks.
proof fn lemma_sel_distinct(tasks: Seq<Task>, p: SchedParams)
    requires
        distinct_ids(tasks),
    ensures
        distinct_ids(sched_selected(tasks, p)),
        forall|x: Task| sched_selected(tasks, p).contains(x) ==> tasks.contains(x)
            && sched_keep(x, p),
    decreases tasks.len(),
{
    if tasks.len() > 0 {
        let pre = tasks.drop_last();
        assert(distinct_ids(pre)) by {
            assert(forall|i: int, j: int|
                0 <= i < j < pre.len() ==> (#[trigger] pre[i]).id@ != (
                #[trigger] pre[j]).id@);
        }
        lemma_sel_distinct(pre, p);
        assert(forall|x: Task| pre.contains(x) ==> tasks.contains(x)) by {
            assert(forall|i: int| 0 <= i < pre.len() ==> pre[i] == tasks[i]);
        }
        if sched_keep(tasks.last(), p) {
            let sel = sched_selected(tasks, p);
            let selp = sched_selected(pre, p);
            assert(sel == selp.push(tasks.last()));
            assert forall|i: int, j: int| 0 <= i < j < sel.len() implies (
            #[trigger] sel[i]).id@ != (#[trigger] sel[j]).id@ by {
                if j == sel.len() - 1 {
                    assert(sel[i] == selp[i]);
                    assert(selp.contains(selp[i]));
                    assert(pre.contains(selp[i]));
                    let a = choose|a: int| 0 <= a < pre.len() && pre[a] == selp[i];
                    assert(tasks[a].id@ != tasks[tasks.len() - 1].id@);
                } else {
                    assert(sel[i] == selp[i] && sel[j] == selp[j]);
                }
            }
        }
    }
}

/// Distinct ids carry over to any rearrangement of the same elements.
proof fn lemma_distinct_ids_transfer(x: Seq<Task>, y: Seq<Task>)
    requires
        distinct_ids(x),
        y.to_multiset() == x.to_multiset(),
    ensures
        distinct_ids(y),
{
    broadcast use vstd::seq_lib::group_to_multiset_ensures;

    assert forall|i: int, j: int| 0 <= i < j < y.len() implies (#[trigger] y[i]).id@ != (
    #[trigger] y[j]).id@ by {
        if y[i].id@ == y[j].id@ {
            assert(y.contains(y[i]));
            assert(x.to_multiset().contains(y[i]));
            assert(x.contains(y[i]));
            assert(y.contains(y[j]));
            assert(x.to_multiset().contains(y[j]));
            assert(x.contains(y[j]));
            if y[i] == y[j] {
                let v = y[i];
                assert(y.remove(i).to_multiset() =~= y.to_multiset().remove(v));
                assert(y.remove(i)[j - 1] == v);
                assert(y.remove(i).contains(v));
                assert(y.remove(i).to_multiset().contains(v));
                assert(x.to_multiset().count(v) >= 2);
                let a = choose|a: int| 0 <= a < x.len() && x[a] == v;
                assert(x.remove(a).to_multiset() =~= x.to_multiset().remove(v));
                assert(x.remove(a).to_multiset().contains(v));
                assert(x.remove(a).contains(v));
                let b = choose|b: int| 0 <= b < x.remove(a).len() && x.remove(a)[b] == v;
                if b < a {
                    assert(x[b] == v);
                    assert(x[b].id@ != x[a].id@);
                } else {
                    assert(x[b + 1] == v);
                    assert(x[a].id@ != x[b + 1].id@);
                }
            } else {
                let a = choose|a: int| 0 <= a < x.len() && x[a] == y[i];
                let b = choose|b: int| 0 <= b < x.len() && x[b] == y[j];
                assert(a != b);
                if a < b {
                    assert(x[a].id@ != x[b].id@);
                } else {
                    assert(x[b].id@ != x[a].id@);
                }
            }
        }
    }
}

/// Removing one task from the records removes exactly its contribution
/// from the selection's elements.
proof fn lemma_sel_remove(tasks: Seq<Task>, p: SchedParams, pos: int)
    requires
        0 <= pos < tasks.len(),
    ensures
        sched_selected(tasks, p).to_multiset() =~= if sched_keep(tasks[pos], p) {
            sched_selected(tasks.remove(pos), p).to_multiset().insert(tasks[pos])
        } else {
            sched_selected(tasks.remove(pos), p).to_multiset()
        },
    decreases tasks.len(),
{
    broadcast use vstd::seq_lib::group_to_multiset_ensures;

    if pos == tasks.len() - 1 {
        assert(tasks.remove(pos) =~= tasks.drop_last());
    } else {
        let pre = tasks.drop_last();
        lemma_sel_remove(pre, p, pos);
        assert(tasks.remove(pos).drop_last() =~= pre.remove(pos));
        assert(tasks.remove(pos).last() == tasks.last());
        assert(pre[pos] == tasks[pos]);
    }
}

/// Collections with the same elements select the same elements.
proof fn lemma_sel_perm(t1: Seq<Task>, t2: Seq<Task>, p: SchedParams)
    requires
        t1.to_multiset() == t2.to_multiset(),
    ensures
        sched_selected(t1, p).to_multiset() == sched_selected(t2, p).to_multiset(),
    decreases t1.len(),
{
    broadcast use vstd::seq_lib::group_to_multiset_ensures;

    if t1.len() == 0 {
        assert(t2.to_multiset().len() == 0);
        assert(t2.len() == t2.to_multiset().len());
        assert(t2 =~= Seq::<Task>::empty());
    } else {
        let last = t1.last();
        assert(t1.contains(last));
        assert(t2.to_multiset().contains(last));
        assert(t2.contains(last));
        let pos = choose|pos: int| 0 <= pos < t2.len() && t2[pos] == last;
        let t2r = t2.remove(pos);
        assert(t1.drop_last() =~= t1.remove(t1.len() - 1));
        assert(t1.drop_last().to_multiset() =~= t1.to_multiset().remove(last));
        assert(t2r.to_multiset() =~= t2.to_multiset().remove(last));
        assert(t1.drop_last().to_multiset() == t2r.to_multiset()) by {
            assert(t1.drop_last().to_multiset() =~= t2r.to_multiset());
        }
        lemma_sel_perm(t1.drop_last(), t2r, p);
        lemma_sel_remove(t2, p, pos);
        if sched_keep(last, p) {
            assert(sched_selected(t1, p).to_multiset() =~= sched_selected(
                t1.drop_last(),
                p,
            ).to_multiset().insert(last));
            assert(sched_selected(t1, p).to_multiset() =~= sched_selected(
                t2,
                p,
            ).to_multiset());
        } else {
            assert(sched_selected(t1, p).to_multiset() =~= sched_selected(
                t2,
                p,
            ).to_multiset());
        }
    }
}

/// The schedule builder reads its input as a collection: record sets with
/// the same records (in any order, ids distinct) give the same document.
pub proof fn lemma_schedule_order_independent(t1: Seq<Task>, t2: Seq<Task>, p: SchedParams)
    requires
        t1.to_multiset() == t2.to_multiset(),
    ensures
        spec_schedule(t1, p) == spec_schedule(t2, p),
{
    lemma_sel_perm(t1, t2, p);
}

/// Appending to the first section called `name` lands at the first match.
proof fn lemma_add_found(secs: Seq<GanttSectionV>, name: Seq<char>, tv: GanttTaskV, m: int)
    requires
        0 <= m < secs.len(),
        secs[m].name == name,
        forall|k: int| 0 <= k < m ==> (#[trigger] secs[k]).name != name,
    ensures
        add_to_sections(secs, name, tv) =~= secs.update(
            m,
            GanttSectionV { name: secs[m].name, tasks: secs[m].tasks.push(tv) },
        ),
    decreases m,
{
    if m == 0 {
        assert(add_to_sections(secs, name, tv) =~= secs.update(
            0,
            GanttSectionV { name: secs[0].name, tasks: secs[0].tasks.push(tv) },
        ));
    } else {
        assert(secs[0].name != name);
        let rest = secs.drop_first();
        assert(forall|k: int| 0 <= k < m - 1 ==> (#[trigger] rest[k]).name != name) by {
            assert(forall|k: int| 0 <= k < rest.len() ==> rest[k] == secs[k + 1]);
        }
        assert(rest[m - 1] == secs[m]);
        lemma_add_found(rest, name, tv, m - 1);
        assert(add_to_sections(secs, name, tv) =~= seq![secs[0]] + add_to_sections(
            rest,
            name,
            tv,
        ));
        assert(add_to_sections(secs, name, tv) =~= secs.update(
            m,
            GanttSectionV { name: secs[m].name, tasks: secs[m].tasks.push(tv) },
        ));
    }
}

/// Appending under an unseen section name opens a new section at the end.
proof fn lemma_add_new(secs: Seq<GanttSectionV>, name: Seq<char>, tv: GanttTaskV)
    requires
        forall|k: int| 0 <= k < secs.len() ==> (#[trigger] secs[k]).name != name,
    ensures
        add_to_sections(secs, name, tv) =~= secs.push(
            GanttSectionV { name: name, tasks: seq![tv] },
        ),
    decreases secs.len(),
{
    if secs.len() > 0 {
        let rest = secs.drop_first();
        assert(forall|k: int| 0 <= k < rest.len() ==> (#[trigger] rest[k]).name != name)
            by {
            assert(forall|k: int| 0 <= k < rest.len() ==> rest[k] == secs[k + 1]);
        }
        lemma_add_new(rest, name, tv);
    }
}

/// The view sequence of a section vector.
pub open spec fn sections_view(secs: Seq<GanttSection>) -> Seq<GanttSectionV> {
    Seq::new(secs.len(), |i: int| secs[i]@)
}

/// The section label of one task, as a fresh string.
fn make_section_name(task: &Task, section_key: &str, Ghost(p): Ghost<SchedParams>) -> (r:
    String)
    requires
        p.section_key == section_key@,
    ensures
        r@ == section_name_of(*task, p),
{
    if section_key.is_empty() {
        String::from_str("Tasks")
    } else {
        match extract_tag_value_string(task, section_key) {
            Some(s) => s,
            None => String::from_str("unclassified"),
        }
    }
}

/// The scheduled task derived from one record.
fn make_gantt_task(
    task: &Task,
    title_key: &str,
    start_key: &str,
    end_key: &str,
    depends_key: &str,
    section_key: &str,
    Ghost(p): Ghost<SchedParams>,
) -> (r: GanttTask)
    requires
        p.title_key == title_key@,
        p.start_key == start_key@,
        p.end_key == end_key@,
        p.depends_key == depends_key@,
        p.section_key == section_key@,
        sched_eligible(*task, p),
    ensures
        r@ == gantt_task_of(*task, p),
{
    let title: String = if !title_key.is_empty() {
        match extract_tag_value_string(task, title_key) {
            Some(s) => s,
            None => {
                let mut t = String::new();
                push_title(&mut t, task.id.as_str());
                t
            },
        }
    } else {
        let mut t = String::new();
        push_title(&mut t, task.id.as_str());
        t
    };
    let start = match extract_tag_value_string(task, start_key) {
        Some(s) => s,
        None => {
            proof {
                assert(false);
            }
            String::new()
        },
    };
    let end = match extract_tag_value_string(task, end_key) {
        Some(s) => s,
        None => {
            proof {
                assert(false);
            }
            String::new()
        },
    };
    let status: Option<String> = if str_eq(section_key, "status") {
        extract_tag_value_string(task, "status")
    } else {
        None
    };
    let depends_on: Option<String> = if depends_key.is_empty() {
        None
    } else {
        match extract_tag_value_array(task, depends_key) {
            Some(a) => {
                if a.len() > 0 {
                    Some(a[0].clone())
                } else {
                    None
                }
            },
            None => None,
        }
    };
    let r = GanttTask { id: task.id.clone(), title, start, end, status, depends_on };
    proof {
        reveal_strlit("status");
        assert(r@ == gantt_task_of(*task, p));
    }
    r
}

/// Selects the positions of the tasks the builder keeps, in record order.
fn select_tasks(
    tasks: &Vec<Task>,
    start_key: &str,
    end_key: &str,
    filter_active: bool,
    filter_date_field: Option<&str>,
    lo: Option<i32>,
    hi: Option<i32>,
    Ghost(p): Ghost<SchedParams>,
) -> (r: Vec<usize>)
    requires
        p.start_key == start_key@,
        p.end_key == end_key@,
        p.filter_active == filter_active,
        p.filter_field == opt_str_view(filter_date_field),
        p.lo == spec_lo(lo),
        p.hi == spec_lo(hi),
        match lo {
            Some(l) => spec_lo(lo) == Some(l as int),
            None => spec_lo(lo) is None,
        },
        match hi {
            Some(h) => spec_lo(hi) == Some(h as int),
            None => spec_lo(hi) is None,
        },
    ensures
        seq_at(tasks@, r@) == sched_selected(tasks@, p),
        forall|k: int|
            0 <= k < r@.len() ==> (#[trigger] r@[k]) < tasks@.len() && sched_keep(
                tasks@[r@[k] as int],
                p,
            ),
{
    let mut idxs: Vec<usize> = Vec::new();
    let mut i: usize = 0;
    proof {
        assert(seq_at(tasks@, idxs@) =~= sched_selected(tasks@.take(0), p));
    }
    while i < tasks.len()
        invariant
            0 <= i <= tasks@.len(),
            p.start_key == start_key@,
            p.end_key == end_key@,
            p.filter_active == filter_active,
            p.filter_field == opt_str_view(filter_date_field),
            p.lo == spec_lo(lo),
            p.hi == spec_lo(hi),
            match lo {
                Some(l) => spec_lo(lo) == Some(l as int),
                None => spec_lo(lo) is None,
            },
            match hi {
                Some(h) => spec_lo(hi) == Some(h as int),
                None => spec_lo(hi) is None,
            },
            seq_at(tasks@, idxs@) == sched_selected(tasks@.take(i as int), p),
            forall|k: int|
                0 <= k < idxs@.len() ==> (#[trigger] idxs@[k]) < tasks@.len() && sched_keep(
                    tasks@[idxs@[k] as int],
                    p,
                ),
        decreases tasks@.len() - i,
    {
        let keep = keeps_task(
            &tasks[i],
            start_key,
            end_key,
            filter_active,
            filter_date_field,
            lo,
            hi,
            Ghost(p),
        );
        proof {
            assert(tasks@.take(i + 1).drop_last() =~= tasks@.take(i as int));
            assert(tasks@.take(i + 1).last() == tasks@[i as int]);
        }
        if keep {
            let ghost pre = idxs@;
            idxs.push(i);
            proof {
                assert(seq_at(tasks@, idxs@) =~= seq_at(tasks@, pre).push(
                    tasks@[i as int],
                ));
            }
        }
        i = i + 1;
    }
    proof {
        assert(tasks@.take(tasks@.len() as int) =~= tasks@);
    }
    idxs
}

/// Orders the selected positions by the builder's task order.
fn sort_selected(
    tasks: &Vec<Task>,
    idxs: &Vec<usize>,
    start_key: &str,
    Ghost(p): Ghost<SchedParams>,
) -> (r: Vec<usize>)
    requires
        p.start_key == start_key@,
        forall|k: int|
            0 <= k < idxs@.len() ==> (#[trigger] idxs@[k]) < tasks@.len() && sched_keep(
                tasks@[idxs@[k] as int],
                p,
            ),
    ensures
        seq_at(tasks@, r@).to_multiset() == seq_at(tasks@, idxs@).to_multiset(),
        task_sorted(seq_at(tasks@, r@), p),
        forall|k: int|
            0 <= k < r@.len() ==> (#[trigger] r@[k]) < tasks@.len() && sched_keep(
                tasks@[r@[k] as int],
                p,
            ),
{
    broadcast use vstd::seq_lib::group_to_multiset_ensures;

    let mut sorted: Vec<usize> = Vec::new();
    let mut m: usize = 0;
    proof {
        assert(seq_at(tasks@, idxs@.take(0)) =~= Seq::<Task>::empty());
        assert(seq_at(tasks@, sorted@) =~= Seq::<Task>::empty());
        assert(seq_at(tasks@, sorted@).to_multiset() =~= seq_at(
            tasks@,
            idxs@.take(0),
        ).to_multiset());
    }
    while m < idxs.len()
        invariant
            0 <= m <= idxs@.len(),
            p.start_key == start_key@,
            forall|k: int|
                0 <= k < idxs@.len() ==> (#[trigger] idxs@[k]) < tasks@.len() && sched_keep(
                    tasks@[idxs@[k] as int],
                    p,
                ),
            forall|k: int|
                0 <= k < sorted@.len() ==> (#[trigger] sorted@[k]) < tasks@.len()
                    && sched_keep(tasks@[sorted@[k] as int], p),
            seq_at(tasks@, sorted@).to_multiset() == seq_at(
                tasks@,
                idxs@.take(m as int),
            ).to_multiset(),
            task_sorted(seq_at(tasks@, sorted@), p),
        decreases idxs@.len() - m,
    {
        let idx = idxs[m];
        let ghost pre = sorted@;
        let mut q: usize = 0;
        while q < sorted.len() && !task_le_at(tasks, idx, sorted[q], start_key, Ghost(p))
            invariant
                0 <= q <= sorted@.len(),
                p.start_key == start_key@,
                idx < tasks@.len(),
                sched_keep(tasks@[idx as int], p),
                forall|k: int|
                    0 <= k < sorted@.len() ==> (#[trigger] sorted@[k]) < tasks@.len()
                        && sched_keep(tasks@[sorted@[k] as int], p),
                forall|k: int|
                    0 <= k < q ==> !task_le(
                        tasks@[idx as int],
                        tasks@[(#[trigger] sorted@[k]) as int],
                        p,
                    ),
            decreases sorted@.len() - q,
        {
            q = q + 1;
        }
        sorted.insert(q, idx);
        proof {
            let t = tasks@[idx as int];
            let sv = seq_at(tasks@, pre);
            assert(sorted@ =~= pre.insert(q as int, idx));
            assert(seq_at(tasks@, sorted@) =~= sv.insert(q as int, t));
            crate::text::lemma_seq_insert_multiset(sv, q as int, t);
            broadcast use vstd::seq_lib::group_to_multiset_ensures;

            assert(idxs@.take(m + 1).drop_last() =~= idxs@.take(m as int));
            assert(seq_at(tasks@, idxs@.take(m + 1)) =~= seq_at(
                tasks@,
                idxs@.take(m as int),
            ).push(t));
            assert(seq_at(tasks@, sorted@).to_multiset() =~= sv.to_multiset().insert(t));
            assert(seq_at(tasks@, idxs@.take(m + 1)).to_multiset() =~= seq_at(
                tasks@,
                idxs@.take(m as int),
            ).to_multiset().insert(t));
            assert(seq_at(tasks@, sorted@).to_multiset() =~= seq_at(
                tasks@,
                idxs@.take(m + 1),
            ).to_multiset());
            let newv = seq_at(tasks@, sorted@);
            assert forall|a: int, b: int| 0 <= a < b < newv.len() implies task_le(
                #[trigger] newv[a],
                #[trigger] newv[b],
                p,
            ) by {
                if a < q && b == q {
                    assert(newv[a] == sv[a]);
                    assert(!task_le(t, sv[a], p));
                    lemma_task_le_total(t, sv[a], p);
                } else if a == q && b > q {
                    assert(newv[b] == sv[b - 1]);
                    if q < sv.len() {
                        assert(task_le(t, sv[q as int], p));
                        if b - 1 > q {
                            assert(task_le(sv[q as int], sv[b - 1], p));
                            lemma_task_le_trans(t, sv[q as int], sv[b - 1], p);
                        }
                    }
                } else if b < q {
                    assert(newv[a] == sv[a] && newv[b] == sv[b]);
                } else if a < q && b > q {
                    assert(newv[a] == sv[a] && newv[b] == sv[b - 1]);
                    if b - 1 == a {
                        assert(!task_le(t, sv[a], p));
                        lemma_task_le_total(t, sv[a], p);
                    }
                } else if a > q {
                    assert(newv[a] == sv[a - 1] && newv[b] == sv[b - 1]);
                }
            }
        }
        m = m + 1;
    }
    proof {
        assert(idxs@.take(idxs@.len() as int) =~= idxs@);
    }
    sorted
}

/// Groups the ordered tasks into sections in first-seen order.
fn group_sections(
    tasks: &Vec<Task>,
    sorted_idxs: &Vec<usize>,
    title_key: &str,
    start_key: &str,
    end_key: &str,
    depends_key: &str,
    section_key: &str,
    Ghost(p): Ghost<SchedParams>,
) -> (r: Vec<GanttSection>)
    requires
        p.title_key == title_key@,
        p.start_key == start_key@,
        p.end_key == end_key@,
        p.depends_key == depends_key@,
        p.section_key == section_key@,
        forall|k: int|
            0 <= k < sorted_idxs@.len() ==> (#[trigger] sorted_idxs@[k]) < tasks@.len()
                && sched_keep(tasks@[sorted_idxs@[k] as int], p),
    ensures
        sections_view(r@) == build_sections(seq_at(tasks@, sorted_idxs@), p),
{
    let mut sections: Vec<GanttSection> = Vec::new();
    let mut m: usize = 0;
    proof {
        assert(sections_view(sections@) =~= build_sections(
            seq_at(tasks@, sorted_idxs@.take(0)),
            p,
        ));
    }
    while m < sorted_idxs.len()
        invariant
            0 <= m <= sorted_idxs@.len(),
            p.title_key == title_key@,
            p.start_key == start_key@,
            p.end_key == end_key@,
            p.depends_key == depends_key@,
            p.section_key == section_key@,
            forall|k: int|
                0 <= k < sorted_idxs@.len() ==> (#[trigger] sorted_idxs@[k]) < tasks@.len()
                    && sched_keep(tasks@[sorted_idxs@[k] as int], p),
            sections_view(sections@) == build_sections(
                seq_at(tasks@, sorted_idxs@.take(m as int)),
                p,
            ),
        decreases sorted_idxs@.len() - m,
    {
        let idx = sorted_idxs[m];
        let task = &tasks[idx];
        let name = make_section_name(task, section_key, Ghost(p));
        let gt = make_gantt_task(
            task,
            title_key,
            start_key,
            end_key,
            depends_key,
            section_key,
            Ghost(p),
        );
        let ghost pre = sections@;
        let ghost prev = seq_at(tasks@, sorted_idxs@.take(m as int));
        proof {
            assert(seq_at(tasks@, sorted_idxs@.take(m + 1)).drop_last() =~= prev);
            assert(seq_at(tasks@, sorted_idxs@.take(m + 1)).last() == tasks@[idx as int]);
        }
        let mut f: usize = 0;
        let mut found: bool = false;
        while f < sections.len() && !found
            invariant
                0 <= f <= sections@.len(),
                sections@ == pre,
                found ==> f < sections@.len() && sections@[f as int].name@ == name@,
                forall|k: int| 0 <= k < f ==> (#[trigger] sections@[k]).name@ != name@,
            decreases sections@.len() - f + (if found {
                0int
            } else {
                1int
            }),
        {
            if str_eq(sections[f].name.as_str(), name.as_str()) {
                found = true;
            } else {
                f = f + 1;
            }
        }
        if found {
            let mut sec = sections.remove(f);
            sec.tasks.push(gt);
            sections.insert(f, sec);
            proof {
                assert(sections@ =~= pre.update(f as int, sec));
                assert(forall|k: int|
                    0 <= k < f ==> (#[trigger] sections_view(pre)[k]).name != name@);
                assert(sections_view(pre)[f as int].name == name@);
                lemma_add_found(sections_view(pre), name@, gt@, f as int);
                assert(sec@.tasks =~= sections_view(pre)[f as int].tasks.push(gt@));
                assert(sec@.name == sections_view(pre)[f as int].name);
                assert(sections_view(sections@) =~= sections_view(pre).update(
                    f as int,
                    GanttSectionV {
                        name: sections_view(pre)[f as int].name,
                        tasks: sections_view(pre)[f as int].tasks.push(gt@),
                    },
                ));
                assert(sections_view(sections@) =~= build_sections(
                    seq_at(tasks@, sorted_idxs@.take(m + 1)),
                    p,
                ));
            }
        } else {
            let sec = GanttSection { name, tasks: vec![gt] };
            sections.push(sec);
            proof {
                lemma_add_new(sections_view(pre), name@, gt@);
                assert(sec@.tasks =~= seq![gt@]);
                assert(sections_view(sections@) =~= sections_view(pre).push(sec@));
                assert(sections_view(sections@) =~= build_sections(
                    seq_at(tasks@, sorted_idxs@.take(m + 1)),
                    p,
                ));
            }
        }
        m = m + 1;
    }
    proof {
        assert(sorted_idxs@.take(sorted_idxs@.len() as int) =~= sorted_idxs@);
    }
    sections
}

/// Builds the schedule document: keeps the records that carry parsable
/// dates under the start and end keys (and lie in the optional date
/// range), refuses the build when the dependency relation has a cycle and
/// some record was kept, and otherwise orders and groups the kept records.
/// An empty selection yields the empty schedule, cycles or none.
pub fn build_schedule(
    workspace: &Workspace,
    title_field: Option<&str>,
    start_field: Option<&str>,
    end_field: Option<&str>,
    depends_on_field: Option<&str>,
    section_field: Option<&str>,
    filter_date_field: Option<&str>,
    start_date: Option<&str>,
    end_date: Option<&str>,
) -> (r: Result<GanttChart, String>)
    requires
        workspace.wf(),
    ensures
        ({
            let p = resolved_params(
                title_field,
                start_field,
                end_field,
                depends_on_field,
                section_field,
                filter_date_field,
                start_date,
                end_date,
            );
            match r {
                Ok(doc) => (sched_selected(workspace.tasks@, p).len() == 0 || acyclic(
                    workspace.tasks@,
                )) && doc@ == spec_schedule(workspace.tasks@, p),
                Err(_) => sched_selected(workspace.tasks@, p).len() > 0 && !acyclic(
                    workspace.tasks@,
                ),
            }
        }),
{
    broadcast use vstd::seq_lib::group_to_multiset_ensures;

    let ghost p = resolved_params(
        title_field,
        start_field,
        end_field,
        depends_on_field,
        section_field,
        filter_date_field,
        start_date,
        end_date,
    );
    let tasks = &workspace.tasks;
    let lo: Option<i32> = match start_date {
        Some(s) => parse_iso_date(s),
        None => None,
    };
    let hi: Option<i32> = match end_date {
        Some(s) => parse_iso_date(s),
        None => None,
    };
    let filter_active: bool = filter_date_field.is_some() || lo.is_some() || hi.is_some();
    let title_key: &str = match title_field {
        Some(s) => s,
        None => "",
    };
    let start_key: &str = match start_field {
        Some(s) => s,
        None => "start_date",
    };
    let end_key: &str = match end_field {
        Some(s) => s,
        None => "end_date",
    };
    let depends_key: &str = match depends_on_field {
        Some(s) => s,
        None => "depends_on",
    };
    let section_key: &str = match section_field {
        Some(s) => s,
        None => "status",
    };
    proof {
        reveal_strlit("");
        assert(""@ =~= Seq::<char>::empty());
        assert(p.title_key == title_key@);
        assert(p.start_key == start_key@);
        assert(p.end_key == end_key@);
        assert(p.depends_key == depends_key@);
        assert(p.section_key == section_key@);
    }
    let idxs = select_tasks(
        tasks,
        start_key,
        end_key,
        filter_active,
        filter_date_field,
        lo,
        hi,
        Ghost(p),
    );
    if idxs.len() == 0 {
        let doc = GanttChart {
            title: String::from_str("Task Schedule"),
            date_format: String::from_str("YYYY-MM-DD"),
            sections: Vec::new(),
        };
        proof {
            let sel = sched_selected(tasks@, p);
            assert(sel.len() == 0) by {
                assert(seq_at(tasks@, idxs@).len() == 0);
            }
            assert(sel =~= Seq::<Task>::empty());
            assert(Seq::<Task>::empty().to_multiset() == sel.to_multiset() && task_sorted(
                Seq::<Task>::empty(),
                p,
            ));
            let sa = sorted_of(sel.to_multiset(), p);
            assert(sa.to_multiset() == sel.to_multiset() && task_sorted(sa, p));
            assert(sa.len() == sa.to_multiset().len());
            assert(sel.to_multiset().len() == 0) by {
                assert(sel.len() == sel.to_multiset().len());
            }
            assert(sa.len() == 0);
            assert(doc@.sections =~= build_sections(sa, p));
            assert(doc@ == spec_schedule(tasks@, p));
        }
        return Ok(doc);
    }
    let cycles = detect_cyclic_dependencies(workspace);
    if cycles.len() > 0 {
        let mut msg = String::from_str("Cyclic dependency detected: ");
        let mut k: usize = 0;
        while k < cycles.len()
            decreases cycles@.len() - k,
        {
            if k > 0 {
                msg.append(", ");
            }
            msg.append(cycles[k].as_str());
            k = k + 1;
        }
        proof {
            assert(sched_selected(tasks@, p).len() > 0) by {
                assert(seq_at(tasks@, idxs@).len() == idxs@.len());
            }
        }
        return Err(msg);
    }
    let sorted_idxs = sort_selected(tasks, &idxs, start_key, Ghost(p));
    let sections = group_sections(
        tasks,
        &sorted_idxs,
        title_key,
        start_key,
        end_key,
        depends_key,
        section_key,
        Ghost(p),
    );
    let doc = GanttChart {
        title: String::from_str("Task Schedule"),
        date_format: String::from_str("YYYY-MM-DD"),
        sections,
    };
    proof {
        let sel = sched_selected(tasks@, p);
        let st = seq_at(tasks@, sorted_idxs@);
        assert(distinct_ids(tasks@)) by {
            assert(forall|i: int, j: int|
                0 <= i < j < tasks@.len() ==> (#[trigger] tasks@[i]).id@ != (
                #[trigger] tasks@[j]).id@);
        }
        lemma_sel_distinct(tasks@, p);
        assert(st.to_multiset() == sel.to_multiset());
        assert(task_sorted(st, p));
        let sa = sorted_of(sel.to_multiset(), p);
        assert(sa.to_multiset() == sel.to_multiset() && task_sorted(sa, p)) by {
            assert(st.to_multiset() == sel.to_multiset() && task_sorted(st, p));
        }
        lemma_distinct_ids_transfer(sel, st);
        lemma_sorted_unique(st, sa, p);
        assert(st == sa);
        assert(doc@.sections =~= sections_view(sections@));
        assert(doc@.sections =~= build_sections(sa, p));
        assert(doc@ == spec_schedule(tasks@, p));
        assert(sel.len() > 0) by {
            assert(seq_at(tasks@, idxs@).len() == idxs@.len());
        }
    }
    Ok(doc)
}

} // verus!
