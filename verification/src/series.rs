//! The time-series (line) builder: group records by the calendar date a
//! configurable field carries, order the buckets chronologically, and give
//! each bucket either its record count or the value of a supplied metric.
use vstd::multiset::Multiset;
use vstd::prelude::*;
use vstd::string::StringExecFns;

use crate::chart::LineChart;
use crate::chart::LineChartV;
use crate::chart::TimeSeriesPoint;
use crate::dates::format_iso_date;
use crate::dates::iso_date_num;
use crate::dates::iso_date_text;
use crate::dates::parse_iso_date;
use crate::metric::lemma_evaluate_bounded;
use crate::metric::evaluate_selected;
use crate::metric::spec_evaluate;
use crate::metric::Metric;
use crate::metric::MAX_METRIC_TASKS;
use crate::metric::VALUE_MAGNITUDE;
use crate::model::extract_tag_value_string;
use crate::model::seq_at;
use crate::model::Task;
use crate::model::Workspace;
use crate::schedule::date_num_of;
use crate::schedule::in_bounds;
use crate::text::lemma_distinct_seq_transfer;
use crate::text::lemma_seq_insert_multiset;
use crate::values::MetricValue;

verus! {

/// Whether the builder buckets a task: its date field must parse and lie
/// within the optional bounds.
pub open spec fn line_keep(t: Task, key: Seq<char>, lo: Option<int>, hi: Option<int>) -> bool {
    match date_num_of(t, key) {
        Some(d) => in_bounds(d, lo, hi),
        None => false,
    }
}

/// The positions of the bucketed tasks that fall on day `d`, in order.
pub open spec fn bucket_tasks(
    tasks: Seq<Task>,
    key: Seq<char>,
    lo: Option<int>,
    hi: Option<int>,
    d: int,
) -> Seq<Task>
    decreases tasks.len(),
{
    if tasks.len() == 0 {
        Seq::empty()
    } else if line_keep(tasks.last(), key, lo, hi) && date_num_of(tasks.last(), key)
        == Some(d) {
        bucket_tasks(tasks.drop_last(), key, lo, hi, d).push(tasks.last())
    } else {
        bucket_tasks(tasks.drop_last(), key, lo, hi, d)
    }
}

/// The distinct days the bucketed tasks fall on, in first-seen order.
pub open spec fn bucket_days(
    tasks: Seq<Task>,
    key: Seq<char>,
    lo: Option<int>,
    hi: Option<int>,
) -> Seq<int>
    decreases tasks.len(),
{
    if tasks.len() == 0 {
        Seq::empty()
    } else {
        let pre = bucket_days(tasks.drop_last(), key, lo, hi);
        if line_keep(tasks.last(), key, lo, hi) && !pre.contains(
            date_num_of(tasks.last(), key)->0,
        ) {
            pre.push(date_num_of(tasks.last(), key)->0)
        } else {
            pre
        }
    }
}

/// Whether the days are in ascending order, pairwise.
pub open spec fn days_sorted(s: Seq<int>) -> bool {
    forall|i: int, j: int| 0 <= i < j < s.len() ==> (#[trigger] s[i]) <= (#[trigger] s[j])
}

/// The ascending arrangement of a multiset of days.
pub open spec fn sorted_days_of(m: Multiset<int>) -> Seq<int> {
    choose|t: Seq<int>| t.to_multiset() == m && days_sorted(t)
}

/// The value of one bucket: the supplied metric over the bucket's records,
/// or their count at the fixed scale.
pub open spec fn bucket_value(
    tasks: Seq<Task>,
    key: Seq<char>,
    lo: Option<int>,
    hi: Option<int>,
    d: int,
    metric: Option<Metric>,
) -> int {
    match metric {
        Some(m) => spec_evaluate(m, bucket_tasks(tasks, key, lo, hi, d)),
        None => bucket_tasks(tasks, key, lo, hi, d).len() as int * 1_000_000,
    }
}

/// The line title: the metric's display name when one is supplied.
pub open spec fn line_title(key: Seq<char>, metric: Option<Metric>) -> Seq<char> {
    match metric {
        Some(m) => m.name@ + " by "@ + key,
        None => "Tasks by "@ + key,
    }
}

/// The line document: one point per distinct day, chronologically, dated
/// with the canonical ISO text and valued per bucket.
pub open spec fn spec_line(
    tasks: Seq<Task>,
    key: Seq<char>,
    lo: Option<int>,
    hi: Option<int>,
    ylabel: Option<Seq<char>>,
    metric: Option<Metric>,
) -> LineChartV {
    let days = sorted_days_of(bucket_days(tasks, key, lo, hi).to_multiset());
    LineChartV {
        title: line_title(key, metric),
        y_axis_label: match ylabel {
            Some(l) => l,
            None => "Count"@,
        },
        series: Seq::new(
            days.len(),
            |k: int| (iso_date_text(days[k]), bucket_value(tasks, key, lo, hi, days[k], metric)),
        ),
    }
}

/// Two ascending day sequences with the same distinct days are equal.
proof fn lemma_sorted_days_unique(x: Seq<int>, y: Seq<int>)
    requires
        days_sorted(x),
        days_sorted(y),
        forall|i: int, j: int| 0 <= i < j < x.len() ==> (#[trigger] x[i]) != (#[trigger] x[j]),
        x.to_multiset() == y.to_multiset(),
    ensures
        x == y,
    decreases x.len(),
{
    broadcast use vstd::seq_lib::group_to_multiset_ensures;

    if x.len() == 0 {
        assert(y.len() == y.to_multiset().len());
        assert(x =~= y);
    } else {
        assert(x.len() == x.to_multiset().len());
        assert(y.len() == y.to_multiset().len());
        assert(x.to_multiset().contains(x[0]));
        assert(y.contains(x[0]));
        assert(y.to_multiset().contains(y[0]));
        assert(x.contains(y[0]));
        let i = choose|i: int| 0 <= i < x.len() && x[i] == y[0];
        let k = choose|k: int| 0 <= k < y.len() && y[k] == x[0];
        assert(x[0] == y[0]) by {
            if x[0] != y[0] {
                assert(i != 0);
                assert(k != 0);
                assert(x[0] <= x[i]);
                assert(y[0] <= y[k]);
            }
        }
        assert(x.drop_first().to_multiset() =~= x.to_multiset().remove(x[0])) by {
            assert(x.remove(0) =~= x.drop_first());
        }
        assert(y.drop_first().to_multiset() =~= y.to_multiset().remove(y[0])) by {
            assert(y.remove(0) =~= y.drop_first());
        }
        assert(days_sorted(x.drop_first()) && forall|a: int, b: int|
            0 <= a < b < x.drop_first().len() ==> (#[trigger] x.drop_first()[a]) != (
            #[trigger] x.drop_first()[b])) by {
            assert(forall|a: int|
                0 <= a < x.drop_first().len() ==> #[trigger] x.drop_first()[a] == x[a
                    + 1]);
        }
        assert(days_sorted(y.drop_first())) by {
            assert(forall|a: int|
                0 <= a < y.drop_first().len() ==> #[trigger] y.drop_first()[a] == y[a
                    + 1]);
        }
        lemma_sorted_days_unique(x.drop_first(), y.drop_first());
        assert(x =~= seq![x[0]] + x.drop_first());
        assert(y =~= seq![y[0]] + y.drop_first());
    }
}

/// The first-seen days are pairwise distinct, and every bucketed task's
/// day is among them.
proof fn lemma_bucket_days_distinct(
    tasks: Seq<Task>,
    key: Seq<char>,
    lo: Option<int>,
    hi: Option<int>,
)
    ensures
        forall|i: int, j: int|
            0 <= i < j < bucket_days(tasks, key, lo, hi).len() ==> (#[trigger] bucket_days(
                tasks,
                key,
                lo,
                hi,
            )[i]) != (#[trigger] bucket_days(tasks, key, lo, hi)[j]),
    decreases tasks.len(),
{
    if tasks.len() > 0 {
        lemma_bucket_days_distinct(tasks.drop_last(), key, lo, hi);
        let pre = bucket_days(tasks.drop_last(), key, lo, hi);
        let all = bucket_days(tasks, key, lo, hi);
        if all.len() == pre.len() + 1 {
            assert forall|i: int, j: int| 0 <= i < j < all.len() implies (
            #[trigger] all[i]) != (#[trigger] all[j]) by {
                if j == all.len() - 1 {
                    assert(all[i] == pre[i]);
                    assert(pre.contains(pre[i]));
                } else {
                    assert(all[i] == pre[i] && all[j] == pre[j]);
                }
            }
        }
    }
}

/// The day views of the buckets.
pub open spec fn days_view(buckets: Seq<(i32, Vec<usize>)>) -> Seq<int> {
    Seq::new(buckets.len(), |k: int| buckets[k].0 as int)
}

/// The optional day bound of an optional date text.
pub open spec fn opt_bound(o: Option<&str>) -> Option<int> {
    match o {
        Some(s) => iso_date_num(s@),
        None => None,
    }
}

/// The view of an optional label.
pub open spec fn opt_label(o: Option<&str>) -> Option<Seq<char>> {
    match o {
        Some(s) => Some(s@),
        None => None,
    }
}

/// The metric of an optional borrowed metric.
pub open spec fn opt_metric(o: Option<&Metric>) -> Option<Metric> {
    match o {
        Some(m) => Some(*m),
        None => None,
    }
}

/// Whether every bucket pairs its day with exactly that day's tasks.
pub open spec fn buckets_consistent(
    buckets: Seq<(i32, Vec<usize>)>,
    tasks: Seq<Task>,
    scope: Seq<Task>,
    key: Seq<char>,
    lo: Option<int>,
    hi: Option<int>,
) -> bool {
    forall|k: int|
        0 <= k < buckets.len() ==> seq_at(tasks, (#[trigger] buckets[k]).1@) == bucket_tasks(
            scope,
            key,
            lo,
            hi,
            buckets[k].0 as int,
        ) && (forall|e: int|
            0 <= e < buckets[k].1@.len() ==> (#[trigger] buckets[k].1@[e]) < tasks.len())
}

/// Collects the buckets of the kept records, days in first-seen order.
#[verifier::rlimit(100)]
fn build_buckets(
    tasks: &Vec<Task>,
    date_field: &str,
    lo: Option<i32>,
    hi: Option<i32>,
) -> (r: Vec<(i32, Vec<usize>)>)
    requires
        match lo {
            Some(l) => crate::schedule::spec_lo(lo) == Some(l as int),
            None => crate::schedule::spec_lo(lo) is None,
        },
        match hi {
            Some(h) => crate::schedule::spec_lo(hi) == Some(h as int),
            None => crate::schedule::spec_lo(hi) is None,
        },
    ensures
        days_view(r@) == bucket_days(
            tasks@,
            date_field@,
            crate::schedule::spec_lo(lo),
            crate::schedule::spec_lo(hi),
        ),
        buckets_consistent(
            r@,
            tasks@,
            tasks@,
            date_field@,
            crate::schedule::spec_lo(lo),
            crate::schedule::spec_lo(hi),
        ),
{
    let ghost slo = crate::schedule::spec_lo(lo);
    let ghost shi = crate::schedule::spec_lo(hi);
    let ghost key = date_field@;
    let mut buckets: Vec<(i32, Vec<usize>)> = Vec::new();
    let mut i: usize = 0;
    proof {
        assert(days_view(buckets@) =~= bucket_days(tasks@.take(0), key, slo, shi));
    }
    while i < tasks.len()
        invariant
            0 <= i <= tasks@.len(),
            slo == crate::schedule::spec_lo(lo),
            shi == crate::schedule::spec_lo(hi),
            match lo {
                Some(l) => slo == Some(l as int),
                None => slo is None,
            },
            match hi {
                Some(h) => shi == Some(h as int),
                None => shi is None,
            },
            key == date_field@,
            days_view(buckets@) == bucket_days(tasks@.take(i as int), key, slo, shi),
            buckets_consistent(buckets@, tasks@, tasks@.take(i as int), key, slo, shi),
        decreases tasks@.len() - i,
    {
        let task = &tasks[i];
        let parsed: Option<i32> = match extract_tag_value_string(task, date_field) {
            Some(s) => parse_iso_date(s.as_str()),
            None => None,
        };
        let ghost pre = buckets@;
        proof {
            assert(tasks@.take(i + 1).drop_last() =~= tasks@.take(i as int));
            assert(tasks@.take(i + 1).last() == tasks@[i as int]);
        }
        let day: Option<i32> = match parsed {
            Some(d) => {
                let ok_lo: bool = match lo {
                    Some(l) => d >= l,
                    None => true,
                };
                let ok_hi: bool = match hi {
                    Some(h) => d <= h,
                    None => true,
                };
                if ok_lo && ok_hi {
                    Some(d)
                } else {
                    None
                }
            },
            None => None,
        };
        match day {
            Some(d) => {
                proof {
                    assert(line_keep(tasks@[i as int], key, slo, shi));
                    assert(date_num_of(tasks@[i as int], key) == Some(d as int));
                }
                let mut f: usize = 0;
                let mut found: bool = false;
                while f < buckets.len() && !found
                    invariant
                        0 <= f <= buckets@.len(),
                        buckets@ == pre,
                        found ==> f < buckets@.len() && buckets@[f as int].0 == d,
                        forall|k: int| 0 <= k < f ==> (#[trigger] buckets@[k]).0 != d,
                    decreases buckets@.len() - f + (if found {
                        0int
                    } else {
                        1int
                    }),
                {
                    if buckets[f].0 == d {
                        found = true;
                    } else {
                        f = f + 1;
                    }
                }
                if found {
                    let mut bucket = buckets.remove(f);
                    bucket.1.push(i);
                    buckets.insert(f, bucket);
                    proof {
                        assert(buckets@ =~= pre.update(f as int, bucket));
                        assert(days_view(buckets@) =~= days_view(pre));
                        assert(days_view(pre).contains(d as int)) by {
                            assert(days_view(pre)[f as int] == d as int);
                        }
                        assert(days_view(buckets@) =~= bucket_days(
                            tasks@.take(i + 1),
                            key,
                            slo,
                            shi,
                        ));
                        assert(seq_at(tasks@, bucket.1@) =~= seq_at(tasks@, pre[f as int].1@).push(
                            tasks@[i as int],
                        ));
                        assert forall|k: int| 0 <= k < buckets@.len() implies seq_at(
                            tasks@,
                            (#[trigger] buckets@[k]).1@,
                        ) == bucket_tasks(tasks@.take(i + 1), key, slo, shi, buckets@[k].0 as int)
                            && (forall|e: int|
                            0 <= e < buckets@[k].1@.len() ==> (#[trigger] buckets@[k].1@[e])
                                < tasks@.len()) by {
                            if k == f as int {
                                assert(seq_at(tasks@, buckets@[k].1@) =~= bucket_tasks(
                                    tasks@.take(i + 1),
                                    key,
                                    slo,
                                    shi,
                                    d as int,
                                ));
                            } else {
                                assert(buckets@[k] == pre[k]);
                                lemma_bucket_days_distinct(
                                    tasks@.take(i as int),
                                    key,
                                    slo,
                                    shi,
                                );
                                assert(days_view(pre)[k] != days_view(pre)[f as int]) by {
                                    if k < f as int {
                                        assert(days_view(pre)[k] != days_view(
                                            pre,
                                        )[f as int]);
                                    }
                                }
                                assert(pre[k].0 != d);
                                assert(seq_at(tasks@, pre[k].1@) =~= bucket_tasks(
                                    tasks@.take(i + 1),
                                    key,
                                    slo,
                                    shi,
                                    pre[k].0 as int,
                                ));
                            }
                        }
                    }
                } else {
                    let mut members: Vec<usize> = Vec::new();
                    members.push(i);
                    buckets.push((d, members));
                    proof {
                        assert(!days_view(pre).contains(d as int)) by {
                            if days_view(pre).contains(d as int) {
                                let w = choose|w: int|
                                    0 <= w < days_view(pre).len() && days_view(pre)[w]
                                        == d as int;
                                assert(pre[w].0 == d);
                            }
                        }
                        assert(days_view(buckets@) =~= days_view(pre).push(d as int));
                        assert(days_view(buckets@) =~= bucket_days(
                            tasks@.take(i + 1),
                            key,
                            slo,
                            shi,
                        ));
                        assert forall|k: int| 0 <= k < buckets@.len() implies seq_at(
                            tasks@,
                            (#[trigger] buckets@[k]).1@,
                        ) == bucket_tasks(tasks@.take(i + 1), key, slo, shi, buckets@[k].0 as int)
                            && (forall|e: int|
                            0 <= e < buckets@[k].1@.len() ==> (#[trigger] buckets@[k].1@[e])
                                < tasks@.len()) by {
                            if k == buckets@.len() - 1 {
                                assert(bucket_tasks(tasks@.take(i as int), key, slo, shi, d as int)
                                    =~= Seq::<Task>::empty()) by {
                                    lemma_bucket_absent(
                                        tasks@.take(i as int),
                                        key,
                                        slo,
                                        shi,
                                        d as int,
                                    );
                                }
                                assert(seq_at(tasks@, buckets@[k].1@) =~= seq![
                                    tasks@[i as int],
                                ]);
                                assert(seq_at(tasks@, buckets@[k].1@) =~= bucket_tasks(
                                    tasks@.take(i + 1),
                                    key,
                                    slo,
                                    shi,
                                    d as int,
                                ));
                            } else {
                                assert(buckets@[k] == pre[k]);
                                assert(pre[k].0 as int != d as int);
                                assert(seq_at(tasks@, pre[k].1@) =~= bucket_tasks(
                                    tasks@.take(i + 1),
                                    key,
                                    slo,
                                    shi,
                                    pre[k].0 as int,
                                ));
                            }
                        }
                    }
                }
            },
            None => {
                proof {
                    assert(!(line_keep(tasks@[i as int], key, slo, shi)));
                    assert(days_view(buckets@) =~= bucket_days(
                        tasks@.take(i + 1),
                        key,
                        slo,
                        shi,
                    ));
                    assert forall|k: int| 0 <= k < buckets@.len() implies seq_at(
                        tasks@,
                        (#[trigger] buckets@[k]).1@,
                    ) == bucket_tasks(tasks@.take(i + 1), key, slo, shi, buckets@[k].0 as int) && (
                    forall|e: int|
                        0 <= e < buckets@[k].1@.len() ==> (#[trigger] buckets@[k].1@[e])
                            < tasks@.len()) by {
                        assert(seq_at(tasks@, buckets@[k].1@) =~= bucket_tasks(
                            tasks@.take(i + 1),
                            key,
                            slo,
                            shi,
                            buckets@[k].0 as int,
                        ));
                    }
                }
            },
        }
        i = i + 1;
    }
    proof {
        assert(tasks@.take(tasks@.len() as int) =~= tasks@);
    }
    buckets
}

/// A day no kept record has fallen on yet owns no tasks.
proof fn lemma_bucket_absent(
    scope: Seq<Task>,
    key: Seq<char>,
    lo: Option<int>,
    hi: Option<int>,
    d: int,
)
    requires
        !bucket_days(scope, key, lo, hi).contains(d),
    ensures
        bucket_tasks(scope, key, lo, hi, d) =~= Seq::<Task>::empty(),
    decreases scope.len(),
{
    if scope.len() > 0 {
        let pre = bucket_days(scope.drop_last(), key, lo, hi);
        assert(!pre.contains(d)) by {
            if pre.contains(d) {
                let w = choose|w: int| 0 <= w < pre.len() && pre[w] == d;
                if bucket_days(scope, key, lo, hi) == pre {
                    assert(bucket_days(scope, key, lo, hi)[w] == d);
                } else {
                    assert(bucket_days(scope, key, lo, hi)[w] == d);
                }
            }
        }
        lemma_bucket_absent(scope.drop_last(), key, lo, hi, d);
        if line_keep(scope.last(), key, lo, hi) && date_num_of(scope.last(), key) == Some(
            d,
        ) {
            if pre.contains(d) {
            } else {
                assert(bucket_days(scope, key, lo, hi) == pre.push(d));
                assert(bucket_days(scope, key, lo, hi).contains(d)) by {
                    assert(bucket_days(scope, key, lo, hi).last() == d);
                }
            }
        }
    }
}

/// Orders the buckets by day, ascending.
fn sort_buckets(
    buckets: Vec<(i32, Vec<usize>)>,
    Ghost(tasks): Ghost<Seq<Task>>,
    Ghost(key): Ghost<Seq<char>>,
    Ghost(lo): Ghost<Option<int>>,
    Ghost(hi): Ghost<Option<int>>,
) -> (r: Vec<(i32, Vec<usize>)>)
    requires
        buckets_consistent(buckets@, tasks, tasks, key, lo, hi),
    ensures
        days_view(r@).to_multiset() == days_view(buckets@).to_multiset(),
        days_sorted(days_view(r@)),
        buckets_consistent(r@, tasks, tasks, key, lo, hi),
{
    broadcast use vstd::seq_lib::group_to_multiset_ensures;

    let ghost goal = days_view(buckets@);
    let mut sorted: Vec<(i32, Vec<usize>)> = Vec::new();
    let mut m: usize = 0;
    let mut rest: Vec<(i32, Vec<usize>)> = buckets;
    proof {
        assert(days_view(sorted@) =~= Seq::<int>::empty());
        assert(goal.take(0) =~= Seq::<int>::empty());
        assert(days_view(sorted@).to_multiset() =~= goal.take(0).to_multiset());
    }
    while m < rest.len()
        invariant
            0 <= m <= rest@.len(),
            goal == days_view(rest@),
            buckets_consistent(rest@, tasks, tasks, key, lo, hi),
            buckets_consistent(sorted@, tasks, tasks, key, lo, hi),
            days_view(sorted@).to_multiset() == goal.take(m as int).to_multiset(),
            days_sorted(days_view(sorted@)),
        decreases rest@.len() - m,
    {
        let day: i32 = rest[m].0;
        let ghost pre = days_view(sorted@);
        let mut q: usize = 0;
        while q < sorted.len() && sorted[q].0 < day
            invariant
                0 <= q <= sorted@.len(),
                m < rest@.len(),
                day == rest@[m as int].0,
                forall|k: int| 0 <= k < q ==> (#[trigger] sorted@[k]).0 < day,
            decreases sorted@.len() - q,
        {
            q = q + 1;
        }
        let members = clone_members(&rest[m].1);
        sorted.insert(q, (day, members));
        proof {
            assert(days_view(sorted@) =~= pre.insert(q as int, day as int));
            lemma_seq_insert_multiset(pre, q as int, day as int);
            broadcast use vstd::seq_lib::group_to_multiset_ensures;

            assert(goal.take(m + 1) =~= goal.take(m as int).push(day as int));
            assert(goal.take(m + 1).to_multiset() =~= goal.take(
                m as int,
            ).to_multiset().insert(day as int));
            assert(days_view(sorted@).to_multiset() =~= goal.take(m + 1).to_multiset());
            let newv = days_view(sorted@);
            assert forall|a: int, b: int| 0 <= a < b < newv.len() implies (
            #[trigger] newv[a]) <= (#[trigger] newv[b]) by {
                if a < q && b == q as int {
                    assert(newv[a] == pre[a]);
                    assert(pre[a] < day as int);
                } else if a == q as int && b > q {
                    assert(newv[b] == pre[b - 1]);
                    assert(b - 1 >= q);
                    assert(day as int <= pre[q as int]);
                    assert(pre[q as int] <= pre[b - 1]);
                } else if b < q {
                    assert(newv[a] == pre[a] && newv[b] == pre[b]);
                } else if a < q && b > q {
                    assert(newv[a] == pre[a] && newv[b] == pre[b - 1]);
                    assert(pre[a] < day as int);
                    if b - 1 == a {
                    } else {
                        assert(pre[a] <= pre[b - 1]);
                    }
                } else if a > q {
                    assert(newv[a] == pre[a - 1] && newv[b] == pre[b - 1]);
                }
            }
            assert(seq_at(tasks, members@) == bucket_tasks(
                tasks,
                key,
                lo,
                hi,
                day as int,
            ));
        }
        m = m + 1;
    }
    proof {
        assert(goal.take(rest@.len() as int) =~= goal);
    }
    sorted
}

/// Copies a member list.
fn clone_members(members: &Vec<usize>) -> (r: Vec<usize>)
    ensures
        r@ == members@,
{
    let mut r: Vec<usize> = Vec::new();
    let mut i: usize = 0;
    while i < members.len()
        invariant
            0 <= i <= members@.len(),
            r@ =~= members@.take(i as int),
        decreases members@.len() - i,
    {
        r.push(members[i]);
        proof {
            assert(r@ =~= members@.take(i + 1));
        }
        i = i + 1;
    }
    proof {
        assert(members@.take(members@.len() as int) =~= members@);
    }
    r
}

/// Builds the line document: one chronological point per distinct date of
/// the date field within the optional bounds, valued by the supplied
/// metric or by record count.
pub fn build_line(
    workspace: &Workspace,
    date_field: &str,
    start_date: Option<&str>,
    end_date: Option<&str>,
    y_axis_label: Option<&str>,
    metric: Option<&Metric>,
) -> (r: LineChart)
    requires
        workspace.wf(),
    ensures
        r@ == spec_line(
            workspace.tasks@,
            date_field@,
            opt_bound(start_date),
            opt_bound(end_date),
            opt_label(y_axis_label),
            opt_metric(metric),
        ),
{
    broadcast use vstd::seq_lib::group_to_multiset_ensures;

    let tasks = &workspace.tasks;
    let lo: Option<i32> = match start_date {
        Some(s) => parse_iso_date(s),
        None => None,
    };
    let hi: Option<i32> = match end_date {
        Some(s) => parse_iso_date(s),
        None => None,
    };
    let ghost slo = crate::schedule::spec_lo(lo);
    let ghost shi = crate::schedule::spec_lo(hi);
    let ghost key = date_field@;
    proof {
        assert(slo == opt_bound(start_date));
        assert(shi == opt_bound(end_date));
    }
    let buckets = build_buckets(tasks, date_field, lo, hi);
    let sorted = sort_buckets(buckets, Ghost(tasks@), Ghost(key), Ghost(slo), Ghost(shi));
    let ghost spec_days = sorted_days_of(bucket_days(tasks@, key, slo, shi).to_multiset());
    proof {
        let dv = days_view(sorted@);
        lemma_bucket_days_distinct(tasks@, key, slo, shi);
        assert(dv.to_multiset() == bucket_days(tasks@, key, slo, shi).to_multiset());
        assert(spec_days.to_multiset() == bucket_days(tasks@, key, slo, shi).to_multiset()
            && days_sorted(spec_days)) by {
            assert(dv.to_multiset() == bucket_days(tasks@, key, slo, shi).to_multiset()
                && days_sorted(dv));
        }
        lemma_distinct_seq_transfer(bucket_days(tasks@, key, slo, shi), dv);
        lemma_sorted_days_unique(dv, spec_days);
        assert(dv == spec_days);
    }
    let mut series: Vec<TimeSeriesPoint> = Vec::new();
    let mut k: usize = 0;
    while k < sorted.len()
        invariant
            0 <= k <= sorted@.len(),
            workspace.wf(),
            tasks == &workspace.tasks,
            days_view(sorted@) == spec_days,
            buckets_consistent(sorted@, tasks@, tasks@, key, slo, shi),
            series@.len() == k,
            forall|j: int|
                0 <= j < k ==> (#[trigger] series@[j]).date@ == iso_date_text(spec_days[j])
                    && series@[j].value.micros as int == bucket_value(
                    tasks@,
                    key,
                    slo,
                    shi,
                    spec_days[j],
                    opt_metric(metric),
                ),
        decreases sorted@.len() - k,
    {
        let day: i32 = sorted[k].0;
        let date = format_iso_date(day);
        proof {
            assert(seq_at(tasks@, sorted@[k as int].1@) == bucket_tasks(
                tasks@,
                key,
                slo,
                shi,
                day as int,
            ));
            assert(sorted@[k as int].1@.len() == bucket_tasks(
                tasks@,
                key,
                slo,
                shi,
                day as int,
            ).len());
            lemma_bucket_len(tasks@, key, slo, shi, day as int);
        }
        let value: MetricValue = match metric {
            Some(m) => evaluate_selected(m, tasks, &sorted[k].1),
            None => {
                let cnt = sorted[k].1.len();
                MetricValue { micros: (cnt as i128) * 1_000_000 }
            },
        };
        series.push(TimeSeriesPoint { date, value });
        k = k + 1;
    }
    let title: String = match metric {
        Some(m) => {
            let mut t = String::new();
            t.append(m.name.as_str());
            t.append(" by ");
            t.append(date_field);
            t
        },
        None => {
            let mut t = String::new();
            t.append("Tasks by ");
            t.append(date_field);
            t
        },
    };
    let y_label: String = match y_axis_label {
        Some(l) => String::from_str(l),
        None => String::from_str("Count"),
    };
    let doc = LineChart { title, y_axis_label: y_label, series };
    proof {
        assert(doc@.series =~= spec_line(
            tasks@,
            key,
            slo,
            shi,
            opt_label(y_axis_label),
            opt_metric(metric),
        ).series);
        assert(doc@ == spec_line(
            tasks@,
            key,
            slo,
            shi,
            opt_label(y_axis_label),
            opt_metric(metric),
        ));
    }
    doc
}

/// A day's bucket never outgrows the record collection.
pub proof fn lemma_bucket_len(
    scope: Seq<Task>,
    key: Seq<char>,
    lo: Option<int>,
    hi: Option<int>,
    d: int,
)
    ensures
        bucket_tasks(scope, key, lo, hi, d).len() <= scope.len(),
    decreases scope.len(),
{
    if scope.len() > 0 {
        lemma_bucket_len(scope.drop_last(), key, lo, hi, d);
    }
}

/// Every point value of the line document stays within what the record
/// count allows.
pub proof fn lemma_line_values_bounded(
    tasks: Seq<Task>,
    key: Seq<char>,
    lo: Option<int>,
    hi: Option<int>,
    ylabel: Option<Seq<char>>,
    metric: Option<Metric>,
)
    requires
        tasks.len() <= MAX_METRIC_TASKS,
    ensures
        forall|k: int|
            0 <= k < spec_line(tasks, key, lo, hi, ylabel, metric).series.len() ==> -(
            MAX_METRIC_TASKS as int) * VALUE_MAGNITUDE <= (#[trigger] spec_line(
                tasks,
                key,
                lo,
                hi,
                ylabel,
                metric,
            ).series[k]).1 <= (MAX_METRIC_TASKS as int) * VALUE_MAGNITUDE,
{
    let sl = spec_line(tasks, key, lo, hi, ylabel, metric);
    assert forall|k: int| 0 <= k < sl.series.len() implies -(MAX_METRIC_TASKS as int)
        * VALUE_MAGNITUDE <= (#[trigger] sl.series[k]).1 <= (MAX_METRIC_TASKS as int)
        * VALUE_MAGNITUDE by {
        let days = sorted_days_of(bucket_days(tasks, key, lo, hi).to_multiset());
        let d = days[k];
        lemma_bucket_len(tasks, key, lo, hi, d);
        match metric {
            Some(m) => {
                lemma_evaluate_bounded(m, bucket_tasks(tasks, key, lo, hi, d));
            },
            None => {
                let n = bucket_tasks(tasks, key, lo, hi, d).len();
                assert(n as int * 1_000_000 <= MAX_METRIC_TASKS as int * VALUE_MAGNITUDE)
                    by (nonlinear_arith)
                    requires
                        0 <= n <= MAX_METRIC_TASKS,
                ;
            },
        }
    }
}

} // verus!
