//! The category distribution builders: the pie and bar charts, either over
//! the pre-aggregated category index (fast path) or over a live scan of the
//! records (used whenever a date range is requested). A missing category is
//! an error on the fast path; the live scan yields an empty chart instead.
use vstd::multiset::Multiset;
use vstd::prelude::*;
use vstd::string::StringExecFns;

use crate::chart::BarChart;
use crate::chart::BarChartV;
use crate::chart::CategoryCount;
use crate::chart::PieChart;
use crate::chart::PieChartV;
use crate::dates::iso_date_num;
use crate::dates::parse_iso_date;
use crate::model::extract_tag_value_string;
use crate::model::lemma_lookup_slots;
use crate::model::lemma_tags_slots_nonneg;
use crate::model::lemma_total_slots_prefix;
use crate::model::total_slots;
use crate::model::Task;
use crate::model::Workspace;
use crate::schedule::opt_str_view;
use crate::schedule::spec_lo;
use crate::text::lemma_lex_le_antisym;
use crate::text::lemma_lex_le_total;
use crate::text::lemma_lex_le_trans;
use crate::text::lemma_seq_insert_multiset;
use crate::text::lex_le;
use crate::text::str_eq;
use crate::text::str_lex_le;
use crate::values::str_views;
use crate::values::TagValue;

verus! {

/// The pie title of a category: the category name and `Distribution`.
pub open spec fn cat_title(cat: Seq<char>) -> Seq<char> {
    cat + " Distribution"@
}

/// The label/count views of index category values.
pub open spec fn pairs_view(values: Seq<(String, u64)>) -> Seq<(Seq<char>, u64)> {
    Seq::new(values.len(), |i: int| (values[i].0@, values[i].1))
}

/// The count recorded for `label`, if any.
pub open spec fn lookup_pair(pairs: Seq<(Seq<char>, u64)>, label: Seq<char>) -> Option<
    u64,
>
    decreases pairs.len(),
{
    if pairs.len() == 0 {
        None
    } else if pairs[0].0 == label {
        Some(pairs[0].1)
    } else {
        lookup_pair(pairs.drop_first(), label)
    }
}

/// The labels of the pairs, in order.
pub open spec fn labels_of(pairs: Seq<(Seq<char>, u64)>) -> Seq<Seq<char>> {
    Seq::new(pairs.len(), |i: int| pairs[i].0)
}

/// Whether the labels are in lexicographic order, pairwise.
pub open spec fn labels_sorted(ls: Seq<Seq<char>>) -> bool {
    forall|i: int, j: int| 0 <= i < j < ls.len() ==> lex_le(#[trigger] ls[i], #[trigger] ls[j])
}

/// Whether the labels are pairwise distinct.
pub open spec fn distinct_labels(ls: Seq<Seq<char>>) -> bool {
    forall|i: int, j: int| 0 <= i < j < ls.len() ==> (#[trigger] ls[i]) != (#[trigger] ls[j])
}

/// The lexicographically ordered arrangement of a multiset of labels.
pub open spec fn sorted_labels_of(m: Multiset<Seq<char>>) -> Seq<Seq<char>> {
    choose|t: Seq<Seq<char>>| t.to_multiset() == m && labels_sorted(t)
}

/// The largest of the values, zero when there are none.
pub open spec fn max_value_of(values: Seq<u64>) -> u64
    decreases values.len(),
{
    if values.len() == 0 {
        0u64
    } else if values.last() >= max_value_of(values.drop_last()) {
        values.last()
    } else {
        max_value_of(values.drop_last())
    }
}

/// Two sorted label sequences with the same distinct labels are equal.
proof fn lemma_sorted_labels_unique(x: Seq<Seq<char>>, y: Seq<Seq<char>>)
    requires
        labels_sorted(x),
        labels_sorted(y),
        distinct_labels(x),
        x.to_multiset() == y.to_multiset(),
    ensures
        x == y,
    decreases x.len(),
{
    broadcast use vstd::seq_lib::group_to_multiset_ensures;

    if x.len() == 0 {
        assert(y.len() == y.to_multiset().len());
        assert(x =~= y);
    } else {
        assert(x.len() == x.to_multiset().len());
        assert(y.len() == y.to_multiset().len());
        assert(x.to_multiset().contains(x[0]));
        assert(y.contains(x[0]));
        assert(y.to_multiset().contains(y[0]));
        assert(x.contains(y[0]));
        let i = choose|i: int| 0 <= i < x.len() && x[i] == y[0];
        let k = choose|k: int| 0 <= k < y.len() && y[k] == x[0];
        assert(x[0] == y[0]) by {
            if x[0] != y[0] {
                assert(i != 0);
                assert(k != 0);
                assert(lex_le(x[0], x[i]));
                assert(lex_le(y[0], y[k]));
                lemma_lex_le_antisym(x[0], y[0]);
            }
        }
        assert(x.drop_first().to_multiset() =~= x.to_multiset().remove(x[0])) by {
            assert(x.remove(0) =~= x.drop_first());
        }
        assert(y.drop_first().to_multiset() =~= y.to_multiset().remove(y[0])) by {
            assert(y.remove(0) =~= y.drop_first());
        }
        assert(labels_sorted(x.drop_first()) && distinct_labels(x.drop_first())) by {
            assert(forall|a: int|
                0 <= a < x.drop_first().len() ==> #[trigger] x.drop_first()[a] == x[a
                    + 1]);
        }
        assert(labels_sorted(y.drop_first())) by {
            assert(forall|a: int|
                0 <= a < y.drop_first().len() ==> #[trigger] y.drop_first()[a] == y[a
                    + 1]);
        }
        lemma_sorted_labels_unique(x.drop_first(), y.drop_first());
        assert(x =~= seq![x[0]] + x.drop_first());
        assert(y =~= seq![y[0]] + y.drop_first());
    }
}

/// The fast-path pie document of a category, when the index knows it.
pub open spec fn spec_pie_fast(ws: Workspace, cat: Seq<char>) -> Option<PieChartV> {
    match ws.tag_index.spec_category(cat) {
        Some(c) => Some(
            PieChartV { title: cat_title(cat), categories: pairs_view(c.values@) },
        ),
        None => None,
    }
}

/// The fast-path bar document of a category, when the index knows it: the
/// axis is the sorted labels, each value the recorded count of its label.
pub open spec fn spec_bar_fast(ws: Workspace, cat: Seq<char>) -> Option<BarChartV> {
    match ws.tag_index.spec_category(cat) {
        Some(c) => {
            let pairs = pairs_view(c.values@);
            let xs = sorted_labels_of(labels_of(pairs).to_multiset());
            let vals = Seq::new(xs.len(), |k: int| lookup_pair(pairs, xs[k])->0);
            Some(
                BarChartV {
                    title: cat,
                    x_axis: xs,
                    y_axis_label: "Count"@,
                    values: vals,
                    max_value: max_value_of(vals),
                },
            )
        },
        None => None,
    }
}

/// Whether the live scan keeps a task: no filter field means no filtering;
/// with one, the field's date must parse and lie in the range.
pub open spec fn scan_keep(
    t: Task,
    field: Option<Seq<char>>,
    lo: Option<int>,
    hi: Option<int>,
) -> bool {
    if field matches Some(f) && f.len() > 0 {
        match crate::schedule::date_num_of(t, field->0) {
            Some(d) => crate::schedule::in_bounds(d, lo, hi),
            None => false,
        }
    } else {
        true
    }
}

/// One more occurrence of `label`: the first matching count rises by one,
/// or a fresh label arrives at the end with count one.
pub open spec fn bump(counts: Seq<(Seq<char>, u64)>, label: Seq<char>) -> Seq<
    (Seq<char>, u64),
>
    decreases counts.len(),
{
    if counts.len() == 0 {
        seq![(label, 1u64)]
    } else if counts[0].0 == label {
        seq![(counts[0].0, (counts[0].1 + 1) as u64)] + counts.drop_first()
    } else {
        seq![counts[0]] + bump(counts.drop_first(), label)
    }
}

/// The occurrences of each of `labels` in turn.
pub open spec fn bump_many(counts: Seq<(Seq<char>, u64)>, labels: Seq<Seq<char>>) -> Seq<
    (Seq<char>, u64),
>
    decreases labels.len(),
{
    if labels.len() == 0 {
        counts
    } else {
        bump(bump_many(counts, labels.drop_last()), labels.last())
    }
}

/// The labels one task contributes under `cat`: the string value itself, or
/// each element of an array value.
pub open spec fn task_labels(t: Task, cat: Seq<char>) -> Seq<Seq<char>> {
    match t.front_matter.spec_get(cat) {
        Some(TagValue::String(s)) => seq![s@],
        Some(TagValue::Array(a)) => str_views(a@),
        _ => Seq::empty(),
    }
}

/// The scan counts over the kept tasks, labels in first-seen order.
pub open spec fn scan_counts(
    tasks: Seq<Task>,
    cat: Seq<char>,
    field: Option<Seq<char>>,
    lo: Option<int>,
    hi: Option<int>,
) -> Seq<(Seq<char>, u64)>
    decreases tasks.len(),
{
    if tasks.len() == 0 {
        Seq::empty()
    } else if scan_keep(tasks.last(), field, lo, hi) {
        bump_many(
            scan_counts(tasks.drop_last(), cat, field, lo, hi),
            task_labels(tasks.last(), cat),
        )
    } else {
        scan_counts(tasks.drop_last(), cat, field, lo, hi)
    }
}

/// The scanned pie document: the counts in first-seen order.
pub open spec fn spec_pie_scan(
    ws: Workspace,
    cat: Seq<char>,
    field: Option<Seq<char>>,
    lo: Option<int>,
    hi: Option<int>,
) -> PieChartV {
    PieChartV {
        title: cat_title(cat),
        categories: scan_counts(ws.tasks@, cat, field, lo, hi),
    }
}

/// The scanned bar document: the sorted labels with their counts.
pub open spec fn spec_bar_scan(
    ws: Workspace,
    cat: Seq<char>,
    field: Option<Seq<char>>,
    lo: Option<int>,
    hi: Option<int>,
) -> BarChartV {
    let pairs = scan_counts(ws.tasks@, cat, field, lo, hi);
    let xs = sorted_labels_of(labels_of(pairs).to_multiset());
    let vals = Seq::new(xs.len(), |k: int| lookup_pair(pairs, xs[k])->0);
    BarChartV {
        title: cat,
        x_axis: xs,
        y_axis_label: "Count"@,
        values: vals,
        max_value: max_value_of(vals),
    }
}

/// A bump lands at the first matching label.
proof fn lemma_bump_found(counts: Seq<(Seq<char>, u64)>, label: Seq<char>, f: int)
    requires
        0 <= f < counts.len(),
        counts[f].0 == label,
        forall|k: int| 0 <= k < f ==> (#[trigger] counts[k]).0 != label,
    ensures
        bump(counts, label) =~= counts.update(f, (label, (counts[f].1 + 1) as u64)),
    decreases f,
{
    if f == 0 {
        assert(bump(counts, label) =~= counts.update(
            0,
            (label, (counts[0].1 + 1) as u64),
        ));
    } else {
        let rest = counts.drop_first();
        assert(forall|k: int| 0 <= k < f - 1 ==> (#[trigger] rest[k]).0 != label) by {
            assert(forall|k: int| 0 <= k < rest.len() ==> rest[k] == counts[k + 1]);
        }
        assert(rest[f - 1] == counts[f]);
        lemma_bump_found(rest, label, f - 1);
        assert(bump(counts, label) =~= counts.update(f, (label, (counts[f].1 + 1) as u64)));
    }
}

/// A bump under an unseen label opens a fresh count of one at the end.
proof fn lemma_bump_new(counts: Seq<(Seq<char>, u64)>, label: Seq<char>)
    requires
        forall|k: int| 0 <= k < counts.len() ==> (#[trigger] counts[k]).0 != label,
    ensures
        bump(counts, label) =~= counts.push((label, 1u64)),
    decreases counts.len(),
{
    if counts.len() > 0 {
        let rest = counts.drop_first();
        assert(forall|k: int| 0 <= k < rest.len() ==> (#[trigger] rest[k]).0 != label)
            by {
            assert(forall|k: int| 0 <= k < rest.len() ==> rest[k] == counts[k + 1]);
        }
        lemma_bump_new(rest, label);
    }
}

/// Records one occurrence of `label` in the running counts.
fn bump_exec(counts: &mut Vec<(String, u64)>, label: &str, Ghost(bound): Ghost<int>)
    requires
        0 <= bound,
        forall|k: int| 0 <= k < old(counts)@.len() ==> (#[trigger] old(counts)@[k]).1
            <= bound,
        bound + 1 <= u64::MAX,
    ensures
        pairs_view(final(counts)@) == bump(pairs_view(old(counts)@), label@),
        forall|k: int| 0 <= k < final(counts)@.len() ==> (#[trigger] final(counts)@[k]).1
            <= bound + 1,
        distinct_labels(labels_of(pairs_view(old(counts)@))) ==> distinct_labels(
            labels_of(pairs_view(final(counts)@)),
        ),
{
    let ghost pre = pairs_view(counts@);
    let mut f: usize = 0;
    let mut found: bool = false;
    while f < counts.len() && !found
        invariant
            0 <= f <= counts@.len(),
            counts@ == old(counts)@,
            pre == pairs_view(counts@),
            found ==> f < counts@.len() && counts@[f as int].0@ == label@,
            forall|k: int| 0 <= k < f ==> (#[trigger] counts@[k]).0@ != label@,
        decreases counts@.len() - f + (if found {
            0int
        } else {
            1int
        }),
    {
        if str_eq(counts[f].0.as_str(), label) {
            found = true;
        } else {
            f = f + 1;
        }
    }
    if found {
        let pair = counts.remove(f);
        let bumped: u64 = pair.1 + 1;
        counts.insert(f, (pair.0, bumped));
        proof {
            assert(forall|k: int| 0 <= k < f ==> (#[trigger] pre[k]).0 != label@);
            assert(pre[f as int].0 == label@);
            lemma_bump_found(pre, label@, f as int);
            assert(counts@ =~= old(counts)@.update(
                f as int,
                (old(counts)@[f as int].0, bumped),
            ));
            assert(pairs_view(counts@) =~= pre.update(f as int, (label@, bumped)));
            assert(pairs_view(counts@) =~= bump(pre, label@));
            assert(labels_of(pairs_view(counts@)) =~= labels_of(pre));
        }
    } else {
        let fresh = String::from_str(label);
        counts.push((fresh, 1));
        proof {
            lemma_bump_new(pre, label@);
            assert(pairs_view(counts@) =~= pre.push((label@, 1u64)));
            if distinct_labels(labels_of(pre)) {
                assert forall|i: int, j: int|
                    0 <= i < j < labels_of(pairs_view(counts@)).len() implies (
                #[trigger] labels_of(pairs_view(counts@))[i]) != (#[trigger] labels_of(
                    pairs_view(counts@),
                )[j]) by {
                    if j == labels_of(pairs_view(counts@)).len() - 1 {
                        assert(labels_of(pairs_view(counts@))[i] == pre[i].0);
                        assert(pre[i].0 != label@);
                    } else {
                        assert(labels_of(pairs_view(counts@))[i] == labels_of(pre)[i]);
                        assert(labels_of(pairs_view(counts@))[j] == labels_of(pre)[j]);
                    }
                }
            }
        }
    }
}

/// Counts the category labels over the kept records by a live scan.
#[verifier::rlimit(100)]
fn scan_count_pairs(
    workspace: &Workspace,
    category: &str,
    filter_date_field: Option<&str>,
    lo: Option<i32>,
    hi: Option<i32>,
) -> (r: Vec<(String, u64)>)
    requires
        workspace.wf(),
        match lo {
            Some(l) => spec_lo(lo) == Some(l as int),
            None => spec_lo(lo) is None,
        },
        match hi {
            Some(h) => spec_lo(hi) == Some(h as int),
            None => spec_lo(hi) is None,
        },
    ensures
        pairs_view(r@) == scan_counts(
            workspace.tasks@,
            category@,
            opt_str_view(filter_date_field),
            spec_lo(lo),
            spec_lo(hi),
        ),
        distinct_labels(labels_of(pairs_view(r@))),
        forall|k: int| 0 <= k < r@.len() ==> (#[trigger] r@[k]).1 + 5 <= u64::MAX,
{
    let ghost field = opt_str_view(filter_date_field);
    let ghost slo = spec_lo(lo);
    let ghost shi = spec_lo(hi);
    let tasks = &workspace.tasks;
    let mut counts: Vec<(String, u64)> = Vec::new();
    let ghost mut done: int = 0;
    let mut i: usize = 0;
    proof {
        assert(pairs_view(counts@) =~= scan_counts(tasks@.take(0), category@, field, slo, shi));
    }
    while i < tasks.len()
        invariant
            0 <= i <= tasks@.len(),
            workspace.wf(),
            tasks == &workspace.tasks,
            match lo {
                Some(l) => spec_lo(lo) == Some(l as int),
                None => spec_lo(lo) is None,
            },
            match hi {
                Some(h) => spec_lo(hi) == Some(h as int),
                None => spec_lo(hi) is None,
            },
            field == opt_str_view(filter_date_field),
            slo == spec_lo(lo),
            shi == spec_lo(hi),
            pairs_view(counts@) == scan_counts(
                tasks@.take(i as int),
                category@,
                field,
                slo,
                shi,
            ),
            distinct_labels(labels_of(pairs_view(counts@))),
            forall|k: int| 0 <= k < counts@.len() ==> (#[trigger] counts@[k]).1 <= done,
            0 <= done,
            done <= total_slots(tasks@.take(i as int)),
        decreases tasks@.len() - i,
    {
        let task = &tasks[i];
        proof {
            assert(tasks@.take(i + 1).drop_last() =~= tasks@.take(i as int));
            assert(tasks@.take(i + 1).last() == tasks@[i as int]);
            lemma_total_slots_prefix(tasks@, i + 1);
            lemma_tags_slots_nonneg(task.front_matter.tags@);
        }
        let keep: bool = {
            let use_field: bool = match filter_date_field {
                Some(f) => !f.is_empty(),
                None => false,
            };
            if use_field {
                let fname = match filter_date_field {
                    Some(f) => f,
                    None => "",
                };
                match extract_tag_value_string(task, fname) {
                    Some(s) => {
                        match parse_iso_date(s.as_str()) {
                            Some(d) => {
                                let ok_lo: bool = match lo {
                                    Some(l) => d >= l,
                                    None => true,
                                };
                                let ok_hi: bool = match hi {
                                    Some(h) => d <= h,
                                    None => true,
                                };
                                ok_lo && ok_hi
                            },
                            None => false,
                        }
                    },
                    None => false,
                }
            } else {
                true
            }
        };
        proof {
            assert(keep == scan_keep(tasks@[i as int], field, slo, shi));
        }
        if keep {
            let ghost pre_counts = pairs_view(counts@);
            match task.front_matter.get(category) {
                Some(TagValue::String(s)) => {
                    proof {
                        lemma_lookup_slots(task.front_matter.tags@, category@);
                        assert(done + 1 <= total_slots(tasks@.take(i + 1)));
                    }
                    let slabel = s.clone();
                    bump_exec(&mut counts, slabel.as_str(), Ghost(done));
                    proof {
                        done = done + 1;
                        assert(task_labels(tasks@[i as int], category@) =~= seq![s@]);
                        assert(bump_many(pre_counts, seq![s@]) == bump(
                            bump_many(pre_counts, seq![s@].drop_last()),
                            s@,
                        ));
                        assert(seq![s@].drop_last() =~= Seq::<Seq<char>>::empty());
                        assert(pairs_view(counts@) =~= scan_counts(
                            tasks@.take(i + 1),
                            category@,
                            field,
                            slo,
                            shi,
                        ));
                    }
                },
                Some(TagValue::Array(a)) => {
                    proof {
                        lemma_lookup_slots(task.front_matter.tags@, category@);
                        assert(done + a@.len() <= total_slots(tasks@.take(i + 1)));
                    }
                    let items = crate::values::clone_strings(a);
                    let ghost labels = str_views(items@);
                    let mut j: usize = 0;
                    while j < items.len()
                        invariant
                            0 <= j <= items@.len(),
                            labels == str_views(items@),
                            pairs_view(counts@) == bump_many(pre_counts, labels.take(j as int)),
                            forall|k: int|
                                0 <= k < counts@.len() ==> (#[trigger] counts@[k]).1
                                    <= done + j,
                            done + items@.len() <= total_slots(tasks@.take(i + 1)),
                            0 <= done,
                            total_slots(tasks@.take(i + 1)) + 5 <= u64::MAX,
                            distinct_labels(labels_of(pairs_view(counts@))),
                        decreases items@.len() - j,
                    {
                        bump_exec(&mut counts, items[j].as_str(), Ghost(done + j as int));
                        proof {
                            assert(labels.take(j + 1).drop_last() =~= labels.take(
                                j as int,
                            ));
                            assert(labels.take(j + 1).last() == items@[j as int]@);
                            assert(pairs_view(counts@) =~= bump_many(
                                pre_counts,
                                labels.take(j + 1),
                            ));
                        }
                        j = j + 1;
                    }
                    proof {
                        done = done + items@.len() as int;
                        assert(labels.take(items@.len() as int) =~= labels);
                        assert(task_labels(tasks@[i as int], category@) == str_views(a@));
                        assert(labels =~= str_views(a@));
                        assert(pairs_view(counts@) =~= scan_counts(
                            tasks@.take(i + 1),
                            category@,
                            field,
                            slo,
                            shi,
                        ));
                    }
                },
                _ => {
                    proof {
                        assert(task_labels(tasks@[i as int], category@) =~= Seq::<
                            Seq<char>,
                        >::empty());
                        assert(pairs_view(counts@) =~= scan_counts(
                            tasks@.take(i + 1),
                            category@,
                            field,
                            slo,
                            shi,
                        ));
                    }
                },
            }
        } else {
            proof {
                assert(pairs_view(counts@) =~= scan_counts(
                    tasks@.take(i + 1),
                    category@,
                    field,
                    slo,
                    shi,
                ));
            }
        }
        i = i + 1;
    }
    proof {
        assert(tasks@.take(tasks@.len() as int) =~= tasks@);
        lemma_total_slots_prefix(tasks@, tasks@.len() as int);
    }
    counts
}

/// Distinct labels carry over to any rearrangement of the same labels.
proof fn lemma_distinct_labels_transfer(x: Seq<Seq<char>>, y: Seq<Seq<char>>)
    requires
        distinct_labels(x),
        y.to_multiset() == x.to_multiset(),
    ensures
        distinct_labels(y),
{
    broadcast use vstd::seq_lib::group_to_multiset_ensures;

    assert forall|i: int, j: int| 0 <= i < j < y.len() implies (#[trigger] y[i]) != (
    #[trigger] y[j]) by {
        if y[i] == y[j] {
            let v = y[i];
            assert(y.remove(i).to_multiset() =~= y.to_multiset().remove(v));
            assert(y.remove(i)[j - 1] == v);
            assert(y.remove(i).contains(v));
            assert(y.remove(i).to_multiset().contains(v));
            assert(x.to_multiset().count(v) >= 2);
            assert(x.to_multiset().contains(v));
            assert(x.contains(v));
            let a = choose|a: int| 0 <= a < x.len() && x[a] == v;
            assert(x.remove(a).to_multiset() =~= x.to_multiset().remove(v));
            assert(x.remove(a).to_multiset().contains(v));
            assert(x.remove(a).contains(v));
            let b = choose|b: int| 0 <= b < x.remove(a).len() && x.remove(a)[b] == v;
            if b < a {
                assert(x[b] == v);
            } else {
                assert(x[b + 1] == v);
            }
        }
    }
}

/// A label among the pairs always has a recorded count.
proof fn lemma_lookup_present(pairs: Seq<(Seq<char>, u64)>, label: Seq<char>)
    requires
        labels_of(pairs).contains(label),
    ensures
        lookup_pair(pairs, label) is Some,
    decreases pairs.len(),
{
    if pairs.len() > 0 && pairs[0].0 != label {
        let w = choose|w: int| 0 <= w < labels_of(pairs).len() && labels_of(pairs)[w]
            == label;
        assert(labels_of(pairs.drop_first())[w - 1] == label);
        lemma_lookup_present(pairs.drop_first(), label);
    }
}

/// A recorded count belongs to one of the pairs.
proof fn lemma_lookup_bound(pairs: Seq<(Seq<char>, u64)>, label: Seq<char>)
    ensures
        lookup_pair(pairs, label) matches Some(c) ==> exists|k: int|
            0 <= k < pairs.len() && (#[trigger] pairs[k]).1 == c,
    decreases pairs.len(),
{
    if pairs.len() > 0 && pairs[0].0 != label {
        lemma_lookup_bound(pairs.drop_first(), label);
        if lookup_pair(pairs, label) is Some {
            let c = lookup_pair(pairs, label)->0;
            let k = choose|k: int|
                0 <= k < pairs.drop_first().len() && (#[trigger] pairs.drop_first()[k]).1
                    == c;
            assert(pairs[k + 1].1 == c);
        }
    }
}

/// Looks up the recorded count of `label`.
fn lookup_count_of(pairs: &Vec<(String, u64)>, label: &str) -> (r: Option<u64>)
    ensures
        match r {
            Some(c) => lookup_pair(pairs_view(pairs@), label@) == Some(c),
            None => lookup_pair(pairs_view(pairs@), label@) is None,
        },
{
    let ghost pv = pairs_view(pairs@);
    let mut i: usize = 0;
    proof {
        assert(pv.skip(0) =~= pv);
    }
    while i < pairs.len()
        invariant
            0 <= i <= pairs@.len(),
            pv == pairs_view(pairs@),
            lookup_pair(pv, label@) == lookup_pair(pv.skip(i as int), label@),
        decreases pairs@.len() - i,
    {
        proof {
            assert(pv.skip(i as int)[0] == pv[i as int]);
            assert(pv.skip(i as int).drop_first() =~= pv.skip(i + 1));
        }
        if str_eq(pairs[i].0.as_str(), label) {
            return Some(pairs[i].1);
        }
        i = i + 1;
    }
    None
}

/// Orders labels lexicographically; the result is the unique ordered
/// arrangement of the given labels.
fn sort_labels(labels: Vec<String>) -> (r: Vec<String>)
    requires
        distinct_labels(str_views(labels@)),
    ensures
        str_views(r@) == sorted_labels_of(str_views(labels@).to_multiset()),
        str_views(r@).to_multiset() == str_views(labels@).to_multiset(),
        labels_sorted(str_views(r@)),
{
    broadcast use vstd::seq_lib::group_to_multiset_ensures;

    let ghost goal = str_views(labels@);
    let mut sorted: Vec<String> = Vec::new();
    let mut m: usize = 0;
    proof {
        assert(str_views(sorted@) =~= Seq::<Seq<char>>::empty());
        assert(goal.take(0) =~= Seq::<Seq<char>>::empty());
        assert(str_views(sorted@).to_multiset() =~= goal.take(0).to_multiset());
    }
    while m < labels.len()
        invariant
            0 <= m <= labels@.len(),
            goal == str_views(labels@),
            str_views(sorted@).to_multiset() == goal.take(m as int).to_multiset(),
            labels_sorted(str_views(sorted@)),
        decreases labels@.len() - m,
    {
        let ghost pre = str_views(sorted@);
        let mut q: usize = 0;
        while q < sorted.len() && !str_lex_le(labels[m].as_str(), sorted[q].as_str())
            invariant
                0 <= q <= sorted@.len(),
                m < labels@.len(),
                sorted@.len() == str_views(sorted@).len(),
                forall|k: int|
                    0 <= k < q ==> !lex_le(labels@[m as int]@, (#[trigger] sorted@[k])@),
            decreases sorted@.len() - q,
        {
            q = q + 1;
        }
        let item = labels[m].clone();
        sorted.insert(q, item);
        proof {
            let l = labels@[m as int]@;
            assert(str_views(sorted@) =~= pre.insert(q as int, l));
            lemma_seq_insert_multiset(pre, q as int, l);
            broadcast use vstd::seq_lib::group_to_multiset_ensures;

            assert(goal.take(m + 1) =~= goal.take(m as int).push(l));
            assert(goal.take(m + 1).to_multiset() =~= goal.take(
                m as int,
            ).to_multiset().insert(l));
            assert(str_views(sorted@).to_multiset() =~= goal.take(m + 1).to_multiset());
            let newv = str_views(sorted@);
            assert forall|a: int, b: int| 0 <= a < b < newv.len() implies lex_le(
                #[trigger] newv[a],
                #[trigger] newv[b],
            ) by {
                if a < q && b == q as int {
                    assert(newv[a] == pre[a]);
                    assert(!lex_le(l, pre[a]));
                    lemma_lex_le_total(l, pre[a]);
                } else if a == q as int && b > q {
                    assert(newv[b] == pre[b - 1]);
                    if (q as int) < pre.len() {
                        assert(lex_le(l, pre[q as int]));
                        if b - 1 > q {
                            assert(lex_le(pre[q as int], pre[b - 1]));
                            lemma_lex_le_trans(l, pre[q as int], pre[b - 1]);
                        }
                    }
                } else if b < q {
                    assert(newv[a] == pre[a] && newv[b] == pre[b]);
                } else if a < q && b > q {
                    assert(newv[a] == pre[a] && newv[b] == pre[b - 1]);
                    if b - 1 == a {
                        assert(!lex_le(l, pre[a]));
                        lemma_lex_le_total(l, pre[a]);
                    }
                } else if a > q {
                    assert(newv[a] == pre[a - 1] && newv[b] == pre[b - 1]);
                }
            }
        }
        m = m + 1;
    }
    proof {
        assert(goal.take(goal.len() as int) =~= goal);
        let st = str_views(sorted@);
        let sa = sorted_labels_of(goal.to_multiset());
        assert(st.to_multiset() == goal.to_multiset() && labels_sorted(st));
        assert(sa.to_multiset() == goal.to_multiset() && labels_sorted(sa)) by {
            assert(st.to_multiset() == goal.to_multiset() && labels_sorted(st));
        }
        lemma_distinct_labels_transfer(goal, st);
        lemma_sorted_labels_unique(st, sa);
    }
    sorted
}

/// Assembles the bar document from counted pairs with distinct labels.
fn assemble_bar(
    title: &str,
    pairs: &Vec<(String, u64)>,
) -> (r: BarChart)
    requires
        distinct_labels(labels_of(pairs_view(pairs@))),
        forall|e: int| 0 <= e < pairs@.len() ==> (#[trigger] pairs@[e]).1 + 5 <= u64::MAX,
    ensures
        ({
            let pv = pairs_view(pairs@);
            let xs = sorted_labels_of(labels_of(pv).to_multiset());
            let vals = Seq::new(xs.len(), |k: int| lookup_pair(pv, xs[k])->0);
            r@ == BarChartV {
                title: title@,
                x_axis: xs,
                y_axis_label: "Count"@,
                values: vals,
                max_value: max_value_of(vals),
            }
        }),
        r.max_value + 5 <= u64::MAX,
{
    broadcast use vstd::seq_lib::group_to_multiset_ensures;

    let ghost pv = pairs_view(pairs@);
    let mut labels: Vec<String> = Vec::new();
    let mut i: usize = 0;
    proof {
        assert(str_views(labels@) =~= labels_of(pv).take(0));
    }
    while i < pairs.len()
        invariant
            0 <= i <= pairs@.len(),
            pv == pairs_view(pairs@),
            str_views(labels@) == labels_of(pv).take(i as int),
        decreases pairs@.len() - i,
    {
        let ghost pre_labels = labels@;
        labels.push(pairs[i].0.clone());
        proof {
            assert(labels@ =~= pre_labels.push(pairs@[i as int].0));
            assert(str_views(labels@) =~= str_views(pre_labels).push(
                pairs@[i as int].0@,
            ));
            assert(labels_of(pv).take(i + 1) =~= labels_of(pv).take(i as int).push(
                pv[i as int].0,
            ));
            assert(str_views(labels@) =~= labels_of(pv).take(i + 1));
        }
        i = i + 1;
    }
    proof {
        assert(labels_of(pv).take(labels_of(pv).len() as int) =~= labels_of(pv));
        assert(str_views(labels@) == labels_of(pv));
    }
    let xs = sort_labels(labels);
    let ghost xsv = str_views(xs@);
    let mut values: Vec<u64> = Vec::new();
    let mut k: usize = 0;
    let mut max_value: u64 = 0;
    proof {
        assert(values@ =~= Seq::<u64>::new(0nat, |k: int| lookup_pair(pv, xsv[k])->0));
    }
    while k < xs.len()
        invariant
            0 <= k <= xs@.len(),
            pv == pairs_view(pairs@),
            xsv == str_views(xs@),
            xsv.to_multiset() == labels_of(pv).to_multiset(),
            values@ =~= Seq::<u64>::new(k as nat, |j: int| lookup_pair(pv, xsv[j])->0),
            max_value == max_value_of(values@),
            max_value + 5 <= u64::MAX,
            forall|e: int| 0 <= e < pairs@.len() ==> (#[trigger] pairs@[e]).1 + 5
                <= u64::MAX,
        decreases xs@.len() - k,
    {
        proof {
            broadcast use vstd::seq_lib::group_to_multiset_ensures;

            assert(xsv.contains(xsv[k as int]));
            assert(xsv.to_multiset().contains(xsv[k as int]));
            assert(labels_of(pv).to_multiset().contains(xsv[k as int]));
            assert(labels_of(pv).contains(xsv[k as int]));
            lemma_lookup_present(pv, xsv[k as int]);
            lemma_lookup_bound(pv, xsv[k as int]);
        }
        let c = match lookup_count_of(pairs, xs[k].as_str()) {
            Some(c) => c,
            None => {
                proof {
                    assert(false);
                }
                0
            },
        };
        let ghost pre_vals = values@;
        values.push(c);
        if c > max_value {
            max_value = c;
        }
        proof {
            assert(values@ =~= Seq::<u64>::new(
                (k + 1) as nat,
                |j: int| lookup_pair(pv, xsv[j])->0,
            ));
            assert(values@.drop_last() =~= pre_vals);
            let e = choose|e: int| 0 <= e < pv.len() && (#[trigger] pv[e]).1 == c;
            assert(pairs@[e].1 == c);
            assert(c + 5 <= u64::MAX);
        }
        k = k + 1;
    }
    let mut x_axis: Vec<String> = xs;
    let r = BarChart {
        title: String::from_str(title),
        x_axis,
        y_axis_label: String::from_str("Count"),
        values,
        max_value,
    };
    proof {
        let xs_spec = sorted_labels_of(labels_of(pv).to_multiset());
        assert(xsv == xs_spec);
        let vals = Seq::new(xs_spec.len(), |j: int| lookup_pair(pv, xs_spec[j])->0);
        assert(r@.x_axis =~= xs_spec);
        assert(r@.values =~= vals);
        assert(r@ == BarChartV {
            title: title@,
            x_axis: xs_spec,
            y_axis_label: "Count"@,
            values: vals,
            max_value: max_value_of(vals),
        });
    }
    r
}

/// Builds the pie document from the pre-aggregated index. A category the
/// index does not know is an error.
pub fn build_pie(workspace: &Workspace, category: &str) -> (r: Result<PieChart, String>)
    requires
        workspace.wf(),
    ensures
        match r {
            Ok(doc) => spec_pie_fast(*workspace, category@) == Some(doc@),
            Err(_) => spec_pie_fast(*workspace, category@) is None,
        },
{
    let cat = match workspace.tag_index.category(category) {
        Some(c) => c,
        None => {
            let mut msg = String::from_str("Category '");
            msg.append(category);
            msg.append("' was not found.");
            return Err(msg);
        },
    };
    let mut categories: Vec<CategoryCount> = Vec::new();
    let mut i: usize = 0;
    let ghost pv = pairs_view(cat.values@);
    while i < cat.values.len()
        invariant
            0 <= i <= cat.values@.len(),
            pv == pairs_view(cat.values@),
            categories@.len() == i,
            forall|k: int|
                0 <= k < i ==> (#[trigger] categories@[k]).label@ == pv[k].0
                    && categories@[k].count == pv[k].1,
        decreases cat.values@.len() - i,
    {
        let label = cat.values[i].0.clone();
        let count = cat.values[i].1;
        categories.push(CategoryCount { label, count });
        i = i + 1;
    }
    let mut title = String::new();
    title.append(category);
    title.append(" Distribution");
    let doc = PieChart { title, categories };
    proof {
        assert(doc@.categories =~= pv);
        assert(doc@.title =~= cat_title(category@));
    }
    Ok(doc)
}

/// Builds the bar document from the pre-aggregated index. A category the
/// index does not know is an error.
pub fn build_bar(workspace: &Workspace, category: &str) -> (r: Result<BarChart, String>)
    requires
        workspace.wf(),
    ensures
        match r {
            Ok(doc) => spec_bar_fast(*workspace, category@) == Some(doc@) && doc.max_value
                + 5 <= u64::MAX,
            Err(_) => spec_bar_fast(*workspace, category@) is None,
        },
{
    let cat = match workspace.tag_index.category(category) {
        Some(c) => c,
        None => {
            let mut msg = String::from_str("Category '");
            msg.append(category);
            msg.append("' was not found.");
            return Err(msg);
        },
    };
    proof {
        assert(cat.wf()) by {
            let cs = workspace.tag_index.categories@;
            let ghost name = category@;
            lemma_lookup_is_member(cs, name);
        }
        assert(distinct_labels(labels_of(pairs_view(cat.values@)))) by {
            assert(forall|i: int, j: int|
                0 <= i < j < cat.values@.len() ==> (#[trigger] cat.values@[i]).0@ != (
                #[trigger] cat.values@[j]).0@);
        }
    }
    let doc = assemble_bar(category, &cat.values);
    Ok(doc)
}

/// The category a lookup returns is one of the index's own.
proof fn lemma_lookup_is_member(cats: Seq<crate::model::TagCategory>, name: Seq<char>)
    ensures
        crate::model::lookup_category(cats, name) matches Some(c) ==> exists|i: int|
            0 <= i < cats.len() && cats[i] == c,
    decreases cats.len(),
{
    if cats.len() > 0 && cats[0].name@ != name {
        lemma_lookup_is_member(cats.drop_first(), name);
        if crate::model::lookup_category(cats, name) is Some {
            let c = crate::model::lookup_category(cats, name)->0;
            let i = choose|i: int|
                0 <= i < cats.drop_first().len() && cats.drop_first()[i] == c;
            assert(cats[i + 1] == c);
        }
    }
}

/// Builds the pie document by a live scan, applying the optional date
/// range; nothing matching yields an empty chart, not an error.
pub fn build_pie_filtered(
    workspace: &Workspace,
    category: &str,
    filter_date_field: Option<&str>,
    start_date: Option<&str>,
    end_date: Option<&str>,
) -> (r: PieChart)
    requires
        workspace.wf(),
    ensures
        r@ == spec_pie_scan(
            *workspace,
            category@,
            opt_str_view(filter_date_field),
            opt_date_num_d(start_date),
            opt_date_num_d(end_date),
        ),
{
    let lo: Option<i32> = match start_date {
        Some(s) => parse_iso_date(s),
        None => None,
    };
    let hi: Option<i32> = match end_date {
        Some(s) => parse_iso_date(s),
        None => None,
    };
    let pairs = scan_count_pairs(workspace, category, filter_date_field, lo, hi);
    let mut categories: Vec<CategoryCount> = Vec::new();
    let mut i: usize = 0;
    let ghost pv = pairs_view(pairs@);
    while i < pairs.len()
        invariant
            0 <= i <= pairs@.len(),
            pv == pairs_view(pairs@),
            categories@.len() == i,
            forall|k: int|
                0 <= k < i ==> (#[trigger] categories@[k]).label@ == pv[k].0
                    && categories@[k].count == pv[k].1,
        decreases pairs@.len() - i,
    {
        let label = pairs[i].0.clone();
        let count = pairs[i].1;
        categories.push(CategoryCount { label, count });
        i = i + 1;
    }
    let mut title = String::new();
    title.append(category);
    title.append(" Distribution");
    let doc = PieChart { title, categories };
    proof {
        assert(doc@.categories =~= pv);
        assert(doc@.title =~= cat_title(category@));
    }
    doc
}

/// The day count of an optional date text, when it parses.
pub open spec fn opt_date_num_d(o: Option<&str>) -> Option<int> {
    match o {
        Some(s) => iso_date_num(s@),
        None => None,
    }
}

/// Builds the bar document by a live scan, applying the optional date
/// range; the axis is ordered by label.
pub fn build_bar_filtered(
    workspace: &Workspace,
    category: &str,
    filter_date_field: Option<&str>,
    start_date: Option<&str>,
    end_date: Option<&str>,
) -> (r: BarChart)
    requires
        workspace.wf(),
    ensures
        r@ == spec_bar_scan(
            *workspace,
            category@,
            opt_str_view(filter_date_field),
            opt_date_num_d(start_date),
            opt_date_num_d(end_date),
        ),
        r.max_value + 5 <= u64::MAX,
{
    let lo: Option<i32> = match start_date {
        Some(s) => parse_iso_date(s),
        None => None,
    };
    let hi: Option<i32> = match end_date {
        Some(s) => parse_iso_date(s),
        None => None,
    };
    let pairs = scan_count_pairs(workspace, category, filter_date_field, lo, hi);
    let doc = assemble_bar(category, &pairs);
    doc
}

} // verus!
