//! The metric aggregator: a named count, sum or average over the records
//! that pass an optional filter expression, computed exactly in micro-units
//! of the fixed decimal scale.
use vstd::prelude::*;

use crate::filter::spec_eval_expr;
use crate::filter::evaluate_filter_expression;
use crate::filter::tag_value_micros;
use crate::filter::FilterExpression;
use crate::model::seq_at;
use crate::model::Task;
use crate::values::MetricValue;

verus! {

/// The largest record count the aggregator accepts in one call. It keeps
/// every partial sum of tag values representable in the wide accumulator.
pub const MAX_METRIC_TASKS: u64 = 0x800_0000_0000;

/// The largest magnitude one tag value can contribute, in micro-units: the
/// widest integer tag value taken to the fixed scale.
pub const VALUE_MAGNITUDE: i128 = 9_223_372_036_854_775_808_000_000;

/// The aggregation a metric performs.
#[derive(Clone, Copy, Debug, PartialEq, Eq, Structural)]
pub enum MetricCalculationType {
    Count,
    Sum,
    Average,
}

/// A named aggregation: what to compute, over which source tag, and over
/// which filtered subset of the records.
#[derive(Debug)]
pub struct Metric {
    pub id: String,
    pub name: String,
    pub calculation_type: MetricCalculationType,
    pub source_tag: Option<String>,
    pub filter_expression: Option<FilterExpression>,
    pub is_default: Option<bool>,
}

/// Whether `t` passes the optional filter; no filter keeps every record.
pub open spec fn spec_keep(t: Task, f: Option<FilterExpression>) -> bool {
    match f {
        Some(e) => spec_eval_expr(t, e),
        None => true,
    }
}

/// The subsequence of `tasks` that passes the optional filter.
pub open spec fn kept_tasks(tasks: Seq<Task>, f: Option<FilterExpression>) -> Seq<Task>
    decreases tasks.len(),
{
    if tasks.len() == 0 {
        Seq::empty()
    } else if spec_keep(tasks.last(), f) {
        kept_tasks(tasks.drop_last(), f).push(tasks.last())
    } else {
        kept_tasks(tasks.drop_last(), f)
    }
}

/// The numeric micro-unit value `t` carries under `key`, when the value is
/// numeric.
pub open spec fn numeric_micros_of(t: Task, key: Seq<char>) -> Option<int> {
    match t.front_matter.spec_get(key) {
        Some(v) => tag_value_micros(v),
        None => None,
    }
}

/// The sum of the numeric values the records carry under `key`; records
/// without a numeric value contribute nothing.
pub open spec fn extracted_sum(tasks: Seq<Task>, key: Seq<char>) -> int
    decreases tasks.len(),
{
    if tasks.len() == 0 {
        0
    } else {
        extracted_sum(tasks.drop_last(), key) + match numeric_micros_of(tasks.last(), key) {
            Some(v) => v,
            None => 0,
        }
    }
}

/// How many records carry a numeric value under `key`.
pub open spec fn extracted_count(tasks: Seq<Task>, key: Seq<char>) -> int
    decreases tasks.len(),
{
    if tasks.len() == 0 {
        0
    } else {
        extracted_count(tasks.drop_last(), key) + match numeric_micros_of(
            tasks.last(),
            key,
        ) {
            Some(v) => 1int,
            None => 0int,
        }
    }
}

/// Integer division truncating toward zero.
pub open spec fn div_trunc(a: int, n: int) -> int
    recommends
        n > 0,
{
    if a >= 0 {
        a / n
    } else {
        -((-a) / n)
    }
}

/// The exact value of `m` over `tasks`, in micro-units: the filtered count
/// at the fixed scale for `Count`; the sum of the numeric source-tag values
/// for `Sum`; that sum divided by the number of numeric source-tag values
/// for `Average`. A sum or average without a source tag, and an average
/// over no numeric values, are zero.
pub open spec fn spec_evaluate(m: Metric, tasks: Seq<Task>) -> int {
    let ft = kept_tasks(tasks, m.filter_expression);
    match m.calculation_type {
        MetricCalculationType::Count => ft.len() as int * 1_000_000,
        MetricCalculationType::Sum => match m.source_tag {
            Some(st) => extracted_sum(ft, st@),
            None => 0,
        },
        MetricCalculationType::Average => match m.source_tag {
            Some(st) => {
                let cnt = extracted_count(ft, st@);
                if cnt == 0 {
                    0
                } else {
                    div_trunc(extracted_sum(ft, st@), cnt)
                }
            },
            None => 0,
        },
    }
}

/// One value's contribution stays within the per-value magnitude.
proof fn lemma_contrib_bounded(t: Task, key: Seq<char>)
    ensures
        numeric_micros_of(t, key) matches Some(v) ==> -VALUE_MAGNITUDE <= v
            <= VALUE_MAGNITUDE,
{
    if numeric_micros_of(t, key) is Some {
        match t.front_matter.spec_get(key) {
            Some(crate::values::TagValue::Number(n)) => {
                assert(-VALUE_MAGNITUDE <= n * 1_000_000 <= VALUE_MAGNITUDE)
                    by (nonlinear_arith)
                    requires
                        i64::MIN <= n <= i64::MAX,
                ;
            },
            _ => {},
        }
    }
}

/// The running sum stays bounded by the records seen so far.
proof fn lemma_extracted_sum_bounded(tasks: Seq<Task>, key: Seq<char>)
    ensures
        -(tasks.len() as int) * VALUE_MAGNITUDE <= extracted_sum(tasks, key) <= (
        tasks.len() as int) * VALUE_MAGNITUDE,
        0 <= extracted_count(tasks, key) <= tasks.len(),
    decreases tasks.len(),
{
    if tasks.len() > 0 {
        lemma_extracted_sum_bounded(tasks.drop_last(), key);
        lemma_contrib_bounded(tasks.last(), key);
    }
}

/// The filtered subsequence is never longer than the records themselves,
/// and every record of it comes from the records themselves.
pub proof fn lemma_kept_tasks_len(tasks: Seq<Task>, f: Option<FilterExpression>)
    ensures
        kept_tasks(tasks, f).len() <= tasks.len(),
        forall|i: int|
            0 <= i < kept_tasks(tasks, f).len() ==> tasks.contains(
                #[trigger] kept_tasks(tasks, f)[i],
            ) && spec_keep(kept_tasks(tasks, f)[i], f),
    decreases tasks.len(),
{
    if tasks.len() > 0 {
        lemma_kept_tasks_len(tasks.drop_last(), f);
        assert(forall|i: int|
            0 <= i < tasks.drop_last().len() ==> tasks.contains(
                #[trigger] tasks.drop_last()[i],
            ));
        assert(forall|i: int|
            0 <= i < kept_tasks(tasks.drop_last(), f).len() ==> tasks.contains(
                #[trigger] kept_tasks(tasks.drop_last(), f)[i],
            ));
    }
}

impl Metric {
    /// Evaluates this metric over `tasks`; the result is exactly the
    /// specified aggregate in micro-units.
    pub fn evaluate(&self, tasks: &Vec<Task>) -> (r: MetricValue)
        requires
            tasks@.len() <= MAX_METRIC_TASKS,
        ensures
            r.micros == spec_evaluate(*self, tasks@),
    {
        let mut i: usize = 0;
        let mut cnt: usize = 0;
        let mut sum: i128 = 0;
        let mut ncnt: usize = 0;
        proof {
            assert(tasks@.take(0) =~= Seq::<Task>::empty());
        }
        while i < tasks.len()
            invariant
                0 <= i <= tasks@.len(),
                tasks@.len() <= MAX_METRIC_TASKS,
                cnt == kept_tasks(tasks@.take(i as int), self.filter_expression).len(),
                cnt <= i,
                ncnt <= i,
                self.source_tag matches Some(st) ==> sum == extracted_sum(
                    kept_tasks(tasks@.take(i as int), self.filter_expression),
                    st@,
                ) && ncnt == extracted_count(
                    kept_tasks(tasks@.take(i as int), self.filter_expression),
                    st@,
                ),
                -(i as int) * VALUE_MAGNITUDE <= sum <= (i as int) * VALUE_MAGNITUDE,
            decreases tasks@.len() - i,
        {
            let t = &tasks[i];
            let ghost pre_kept = kept_tasks(tasks@.take(i as int), self.filter_expression);
            let keep: bool = match &self.filter_expression {
                Some(e) => evaluate_filter_expression(t, e),
                None => true,
            };
            proof {
                assert(tasks@.take(i + 1).drop_last() =~= tasks@.take(i as int));
                assert(tasks@.take(i + 1).last() == tasks@[i as int]);
            }
            if keep {
                cnt = cnt + 1;
                if let Some(st) = &self.source_tag {
                    let v = numeric_micros(t, st.as_str());
                    proof {
                        let ghost new_kept = kept_tasks(
                            tasks@.take(i + 1),
                            self.filter_expression,
                        );
                        assert(new_kept == pre_kept.push(tasks@[i as int]));
                        assert(new_kept.drop_last() =~= pre_kept);
                        assert(new_kept.last() == tasks@[i as int]);
                        lemma_contrib_bounded(tasks@[i as int], st@);
                    }
                    match v {
                        Some(m) => {
                            sum = sum + m;
                            ncnt = ncnt + 1;
                        },
                        None => {},
                    }
                }
            }
            proof {
                if self.source_tag is None && keep {
                    let ghost new_kept = kept_tasks(
                        tasks@.take(i + 1),
                        self.filter_expression,
                    );
                    assert(new_kept == pre_kept.push(tasks@[i as int]));
                }
                assert((i + 1) as int * VALUE_MAGNITUDE == i as int * VALUE_MAGNITUDE
                    + VALUE_MAGNITUDE) by (nonlinear_arith);
                assert(-((i + 1) as int) * VALUE_MAGNITUDE == -(i as int) * VALUE_MAGNITUDE
                    - VALUE_MAGNITUDE) by (nonlinear_arith);
            }
            i = i + 1;
        }
        proof {
            assert(tasks@.take(tasks@.len() as int) =~= tasks@);
        }
        match self.calculation_type {
            MetricCalculationType::Count => MetricValue {
                micros: (cnt as i128) * 1_000_000,
            },
            MetricCalculationType::Sum => {
                match &self.source_tag {
                    Some(st) => MetricValue { micros: sum },
                    None => MetricValue { micros: 0 },
                }
            },
            MetricCalculationType::Average => {
                match &self.source_tag {
                    Some(st) => {
                        if ncnt == 0 {
                            MetricValue { micros: 0 }
                        } else {
                            let mag: u128 = if sum >= 0 {
                                sum as u128
                            } else {
                                ((-(sum + 1)) as u128) + 1
                            };
                            let q: u128 = mag / (ncnt as u128);
                            proof {
                                assert(q <= mag) by (nonlinear_arith)
                                    requires
                                        q == mag / (ncnt as u128),
                                        ncnt >= 1,
                                        mag >= 0,
                                ;
                            }
                            if sum >= 0 {
                                MetricValue { micros: q as i128 }
                            } else {
                                MetricValue { micros: -(q as i128) }
                            }
                        }
                    },
                    None => MetricValue { micros: 0 },
                }
            },
        }
    }
}

/// The numeric micro-unit value `t` carries under `key`, when numeric.
fn numeric_micros(t: &Task, key: &str) -> (r: Option<i128>)
    ensures
        match r {
            Some(v) => numeric_micros_of(*t, key@) == Some(v as int),
            None => numeric_micros_of(*t, key@) is None,
        },
{
    match t.front_matter.get(key) {
        Some(crate::values::TagValue::Number(n)) => Some((*n as i128) * 1_000_000),
        Some(crate::values::TagValue::Float(d)) => Some(d.micros as i128),
        _ => None,
    }
}

/// A count metric equals the filtered record count, whatever the filter.
pub proof fn lemma_count_is_filtered_length(m: Metric, tasks: Seq<Task>)
    requires
        m.calculation_type == MetricCalculationType::Count,
    ensures
        spec_evaluate(m, tasks) == 1_000_000 * kept_tasks(tasks, m.filter_expression).len(),
{
}

/// A sum metric over records that nowhere carry the source tag is exactly
/// zero.
pub proof fn lemma_sum_of_absent_tag_is_zero(m: Metric, tasks: Seq<Task>)
    requires
        m.calculation_type == MetricCalculationType::Sum,
        m.source_tag matches Some(st) && forall|i: int|
            0 <= i < tasks.len() ==> (#[trigger] tasks[i]).front_matter.spec_get(st@)
                is None,
    ensures
        spec_evaluate(m, tasks) == 0,
{
    let st = m.source_tag->0;
    let ft = kept_tasks(tasks, m.filter_expression);
    lemma_kept_tasks_len(tasks, m.filter_expression);
    assert(forall|i: int|
        0 <= i < ft.len() ==> numeric_micros_of(#[trigger] ft[i], st@) is None);
    lemma_sum_all_none(ft, st@);
}

/// The sum over records that all lack a numeric value under `key` is zero.
proof fn lemma_sum_all_none(tasks: Seq<Task>, key: Seq<char>)
    requires
        forall|i: int| 0 <= i < tasks.len() ==> numeric_micros_of(
            #[trigger] tasks[i],
            key,
        ) is None,
    ensures
        extracted_sum(tasks, key) == 0,
    decreases tasks.len(),
{
    if tasks.len() > 0 {
        assert(forall|i: int|
            0 <= i < tasks.drop_last().len() ==> numeric_micros_of(
                #[trigger] tasks.drop_last()[i],
                key,
            ) is None);
        lemma_sum_all_none(tasks.drop_last(), key);
    }
}

/// An average metric divides by the count of records whose source-tag
/// value is numeric — not by the full filtered count.
pub proof fn lemma_average_divides_by_numeric_count(m: Metric, tasks: Seq<Task>)
    requires
        m.calculation_type == MetricCalculationType::Average,
        m.source_tag is Some,
        extracted_count(kept_tasks(tasks, m.filter_expression), (m.source_tag->0)@) > 0,
    ensures
        spec_evaluate(m, tasks) == div_trunc(
            extracted_sum(kept_tasks(tasks, m.filter_expression), (m.source_tag->0)@),
            extracted_count(kept_tasks(tasks, m.filter_expression), (m.source_tag->0)@),
        ),
{
}

/// Evaluates `m` over the tasks at the given positions; the result is
/// exactly the specified aggregate over that selection, in micro-units.
pub fn evaluate_selected(m: &Metric, tasks: &Vec<Task>, idxs: &Vec<usize>) -> (r:
    MetricValue)
    requires
        idxs@.len() <= MAX_METRIC_TASKS,
        forall|k: int| 0 <= k < idxs@.len() ==> (#[trigger] idxs@[k]) < tasks@.len(),
    ensures
        r.micros == spec_evaluate(*m, seq_at(tasks@, idxs@)),
{
    let ghost sel = seq_at(tasks@, idxs@);
    let mut i: usize = 0;
    let mut cnt: usize = 0;
    let mut sum: i128 = 0;
    let mut ncnt: usize = 0;
    proof {
        assert(seq_at(tasks@, idxs@.take(0)) =~= Seq::<Task>::empty());
    }
    while i < idxs.len()
        invariant
            0 <= i <= idxs@.len(),
            idxs@.len() <= MAX_METRIC_TASKS,
            forall|k: int| 0 <= k < idxs@.len() ==> (#[trigger] idxs@[k]) < tasks@.len(),
            cnt == kept_tasks(seq_at(tasks@, idxs@.take(i as int)), m.filter_expression).len(),
            cnt <= i,
            ncnt <= i,
            m.source_tag matches Some(st) ==> sum == extracted_sum(
                kept_tasks(seq_at(tasks@, idxs@.take(i as int)), m.filter_expression),
                st@,
            ) && ncnt == extracted_count(
                kept_tasks(seq_at(tasks@, idxs@.take(i as int)), m.filter_expression),
                st@,
            ),
            -(i as int) * VALUE_MAGNITUDE <= sum <= (i as int) * VALUE_MAGNITUDE,
        decreases idxs@.len() - i,
    {
        let t = &tasks[idxs[i]];
        let ghost pre_kept = kept_tasks(
            seq_at(tasks@, idxs@.take(i as int)),
            m.filter_expression,
        );
        let keep: bool = match &m.filter_expression {
            Some(e) => evaluate_filter_expression(t, e),
            None => true,
        };
        proof {
            assert(seq_at(tasks@, idxs@.take(i + 1)).drop_last() =~= seq_at(
                tasks@,
                idxs@.take(i as int),
            ));
            assert(seq_at(tasks@, idxs@.take(i + 1)).last() == tasks@[idxs@[i as int] as int]);
        }
        if keep {
            cnt = cnt + 1;
            if let Some(st) = &m.source_tag {
                let v = numeric_micros(t, st.as_str());
                proof {
                    let ghost new_kept = kept_tasks(
                        seq_at(tasks@, idxs@.take(i + 1)),
                        m.filter_expression,
                    );
                    assert(new_kept == pre_kept.push(tasks@[idxs@[i as int] as int]));
                    assert(new_kept.drop_last() =~= pre_kept);
                    lemma_contrib_bounded(tasks@[idxs@[i as int] as int], st@);
                }
                match v {
                    Some(mv) => {
                        sum = sum + mv;
                        ncnt = ncnt + 1;
                    },
                    None => {},
                }
            }
        }
        proof {
            if m.source_tag is None && keep {
                let ghost new_kept = kept_tasks(
                    seq_at(tasks@, idxs@.take(i + 1)),
                    m.filter_expression,
                );
                assert(new_kept == pre_kept.push(tasks@[idxs@[i as int] as int]));
            }
            assert((i + 1) as int * VALUE_MAGNITUDE == i as int * VALUE_MAGNITUDE
                + VALUE_MAGNITUDE) by (nonlinear_arith);
            assert(-((i + 1) as int) * VALUE_MAGNITUDE == -(i as int) * VALUE_MAGNITUDE
                - VALUE_MAGNITUDE) by (nonlinear_arith);
        }
        i = i + 1;
    }
    proof {
        assert(idxs@.take(idxs@.len() as int) =~= idxs@);
    }
    match m.calculation_type {
        MetricCalculationType::Count => MetricValue { micros: (cnt as i128) * 1_000_000 },
        MetricCalculationType::Sum => {
            match &m.source_tag {
                Some(st) => MetricValue { micros: sum },
                None => MetricValue { micros: 0 },
            }
        },
        MetricCalculationType::Average => {
            match &m.source_tag {
                Some(st) => {
                    if ncnt == 0 {
                        MetricValue { micros: 0 }
                    } else {
                        let mag: u128 = if sum >= 0 {
                            sum as u128
                        } else {
                            ((-(sum + 1)) as u128) + 1
                        };
                        let q: u128 = mag / (ncnt as u128);
                        proof {
                            assert(q <= mag) by (nonlinear_arith)
                                requires
                                    q == mag / (ncnt as u128),
                                    ncnt >= 1,
                                    mag >= 0,
                            ;
                        }
                        if sum >= 0 {
                            MetricValue { micros: q as i128 }
                        } else {
                            MetricValue { micros: -(q as i128) }
                        }
                    }
                },
                None => MetricValue { micros: 0 },
            }
        },
    }
}

/// A metric value never outgrows what the record count allows.
pub proof fn lemma_evaluate_bounded(m: Metric, tasks: Seq<Task>)
    requires
        tasks.len() <= MAX_METRIC_TASKS,
    ensures
        -(MAX_METRIC_TASKS as int) * VALUE_MAGNITUDE <= spec_evaluate(m, tasks) <= (
        MAX_METRIC_TASKS as int) * VALUE_MAGNITUDE,
{
    let ft = kept_tasks(tasks, m.filter_expression);
    lemma_kept_tasks_len(tasks, m.filter_expression);
    match m.calculation_type {
        MetricCalculationType::Count => {
            assert(ft.len() as int * 1_000_000 <= MAX_METRIC_TASKS as int
                * VALUE_MAGNITUDE) by (nonlinear_arith)
                requires
                    0 <= ft.len() <= MAX_METRIC_TASKS,
            ;
        },
        MetricCalculationType::Sum => {
            if m.source_tag is Some {
                let st = m.source_tag->0;
                lemma_extracted_sum_bounded(ft, st@);
                assert(ft.len() as int * VALUE_MAGNITUDE <= MAX_METRIC_TASKS as int
                    * VALUE_MAGNITUDE) by (nonlinear_arith)
                    requires
                        0 <= ft.len() <= MAX_METRIC_TASKS,
                ;
            }
        },
        MetricCalculationType::Average => {
            if m.source_tag is Some {
                let st = m.source_tag->0;
                let cnt = extracted_count(ft, st@);
                lemma_extracted_sum_bounded(ft, st@);
                if cnt > 0 {
                    let sm = extracted_sum(ft, st@);
                    assert(-(MAX_METRIC_TASKS as int) * VALUE_MAGNITUDE <= div_trunc(
                        sm,
                        cnt,
                    ) <= MAX_METRIC_TASKS as int * VALUE_MAGNITUDE) by (nonlinear_arith)
                        requires
                            cnt >= 1,
                            -(ft.len() as int) * VALUE_MAGNITUDE <= sm <= (ft.len() as int)
                                * VALUE_MAGNITUDE,
                            0 <= ft.len() <= MAX_METRIC_TASKS,
                            div_trunc(sm, cnt) == (if sm >= 0 {
                                sm / cnt
                            } else {
                                -((-sm) / cnt)
                            }),
                    ;
                }
            }
        },
    }
}

} // verus!
