//! The declarative filter model: comparison and logical operators, leaf
//! conditions over one metadata key, and the recursive boolean expression
//! tree, with its verified evaluator.
//!
//! A note on `NOT`: a composite `NOT` node consults only its **first**
//! child's result and ignores the rest. This mirrors the engine's settled
//! behaviour for multi-child `NOT` nodes and is part of the contract.
use vstd::prelude::*;

use crate::model::Task;
use crate::text::decimal_text;
use crate::text::int_text;
use crate::text::is_prefix;
use crate::text::is_suffix;
use crate::text::seq_contains;
use crate::text::str_contains;
use crate::text::str_ends_with;
use crate::text::str_eq;
use crate::text::str_starts_with;
use crate::values::tag_value_text;
use crate::values::Decimal;
use crate::values::TagValue;

verus! {

/// The comparison operator of a leaf condition.
#[derive(Clone, Copy, Debug, PartialEq, Eq, Structural)]
pub enum ComparisonOperator {
    Equal,
    NotEqual,
    GreaterThan,
    LessThan,
    GreaterThanOrEqual,
    LessThanOrEqual,
    Contains,
    StartsWith,
    EndsWith,
    Regex,
}

/// The connective of a composite expression node.
#[derive(Clone, Copy, Debug, PartialEq, Eq, Structural)]
pub enum LogicalOperator {
    AND,
    OR,
    NOT,
}

/// A sort direction.
#[derive(Clone, Copy, Debug, PartialEq, Eq, Structural)]
pub enum SortOrder {
    Asc,
    Desc,
}

/// One key of a custom sort.
#[derive(Clone, Debug)]
pub struct SortKey {
    pub tag_key: String,
    pub order: SortOrder,
    pub custom_order: Option<Vec<String>>,
}

/// A named custom sort over several keys.
#[derive(Clone, Debug)]
pub struct CustomSort {
    pub name: String,
    pub description: Option<String>,
    pub sort_keys: Vec<SortKey>,
    pub handle_missing: String,
    pub created_at: String,
    pub updated_at: String,
}

/// The scalar literal a leaf condition compares against.
#[derive(Clone, Debug)]
pub enum CondValue {
    String(String),
    Int(i64),
    Float(Decimal),
    Bool(bool),
}

/// One leaf condition: a metadata key, an operator and a literal.
#[derive(Clone, Debug)]
pub struct FilterCondition {
    pub tag_key: String,
    pub operator: ComparisonOperator,
    pub value: CondValue,
}

/// A filter expression: either a leaf condition or a composite node over
/// child expressions. Exactly one of `condition` and `expressions` is meant
/// to be populated; a node with neither evaluates to true, and a composite
/// without an operator combines with `AND`.
#[derive(Debug)]
pub struct FilterExpression {
    pub condition: Option<FilterCondition>,
    pub expressions: Option<Vec<FilterExpression>>,
    pub logical_operator: Option<LogicalOperator>,
}

/// The canonical text of a condition literal.
pub open spec fn cond_value_text(v: CondValue) -> Seq<char> {
    match v {
        CondValue::String(s) => s@,
        CondValue::Int(n) => int_text(n as int),
        CondValue::Float(d) => decimal_text(d.micros as int),
        CondValue::Bool(b) => if b {
            "true"@
        } else {
            "false"@
        },
    }
}

/// The numeric value of a condition literal in micro-units, when numeric.
pub open spec fn cond_value_micros(v: CondValue) -> Option<int> {
    match v {
        CondValue::Int(n) => Some(n * 1_000_000),
        CondValue::Float(d) => Some(d.micros as int),
        _ => None,
    }
}

/// The numeric value of a tag value in micro-units, when numeric.
pub open spec fn tag_value_micros(v: TagValue) -> Option<int> {
    match v {
        TagValue::Number(n) => Some(n * 1_000_000),
        TagValue::Float(d) => Some(d.micros as int),
        _ => None,
    }
}

/// Whether `task` satisfies the leaf condition `c`. A task without the
/// condition's key satisfies no operator, inequality included.
pub open spec fn spec_eval_condition(task: Task, c: FilterCondition) -> bool {
    match task.front_matter.spec_get(c.tag_key@) {
        None => false,
        Some(tv) => match c.operator {
            ComparisonOperator::Equal => tag_value_text(tv) == cond_value_text(c.value),
            ComparisonOperator::NotEqual => tag_value_text(tv) != cond_value_text(c.value),
            ComparisonOperator::GreaterThan => spec_num_cmp_gt(tv, c.value),
            ComparisonOperator::LessThan => spec_num_cmp_lt(tv, c.value),
            ComparisonOperator::GreaterThanOrEqual => spec_num_cmp_ge(tv, c.value),
            ComparisonOperator::LessThanOrEqual => spec_num_cmp_le(tv, c.value),
            ComparisonOperator::Contains => spec_string_op_contains(tv, c.value),
            ComparisonOperator::StartsWith => spec_string_op_starts(tv, c.value),
            ComparisonOperator::EndsWith => spec_string_op_ends(tv, c.value),
            ComparisonOperator::Regex => spec_string_op_contains(tv, c.value),
        },
    }
}

/// Numeric `>`: defined only between a numeric tag value and a numeric
/// literal; every other pairing is false.
pub open spec fn spec_num_cmp_gt(tv: TagValue, cv: CondValue) -> bool {
    match (tag_value_micros(tv), cond_value_micros(cv)) {
        (Some(a), Some(b)) => a > b,
        _ => false,
    }
}

/// Numeric `<`; see `spec_num_cmp_gt`.
pub open spec fn spec_num_cmp_lt(tv: TagValue, cv: CondValue) -> bool {
    match (tag_value_micros(tv), cond_value_micros(cv)) {
        (Some(a), Some(b)) => a < b,
        _ => false,
    }
}

/// Numeric `>=`; see `spec_num_cmp_gt`.
pub open spec fn spec_num_cmp_ge(tv: TagValue, cv: CondValue) -> bool {
    match (tag_value_micros(tv), cond_value_micros(cv)) {
        (Some(a), Some(b)) => a >= b,
        _ => false,
    }
}

/// Numeric `<=`; see `spec_num_cmp_gt`.
pub open spec fn spec_num_cmp_le(tv: TagValue, cv: CondValue) -> bool {
    match (tag_value_micros(tv), cond_value_micros(cv)) {
        (Some(a), Some(b)) => a <= b,
        _ => false,
    }
}

/// String containment: defined only between a string tag value and a
/// string literal; every other pairing is false.
pub open spec fn spec_string_op_contains(tv: TagValue, cv: CondValue) -> bool {
    match (tv, cv) {
        (TagValue::String(s), CondValue::String(p)) => seq_contains(p@, s@),
        _ => false,
    }
}

/// String prefix test; see `spec_string_op_contains`.
pub open spec fn spec_string_op_starts(tv: TagValue, cv: CondValue) -> bool {
    match (tv, cv) {
        (TagValue::String(s), CondValue::String(p)) => is_prefix(p@, s@),
        _ => false,
    }
}

/// String suffix test; see `spec_string_op_contains`.
pub open spec fn spec_string_op_ends(tv: TagValue, cv: CondValue) -> bool {
    match (tv, cv) {
        (TagValue::String(s), CondValue::String(p)) => is_suffix(p@, s@),
        _ => false,
    }
}

/// Whether every expression of `es` holds of `task`; vacuously true.
pub open spec fn spec_eval_all(task: Task, es: Seq<FilterExpression>) -> bool
    decreases es,
{
    forall|i: int| 0 <= i < es.len() ==> spec_eval_expr(task, #[trigger] es[i])
}

/// Whether some expression of `es` holds of `task`; vacuously false.
pub open spec fn spec_eval_any(task: Task, es: Seq<FilterExpression>) -> bool
    decreases es,
{
    exists|i: int| 0 <= i < es.len() && spec_eval_expr(task, #[trigger] es[i])
}

/// Whether `task` satisfies the expression `e`. A leaf consults its
/// condition; a composite combines its children with its operator (`AND`
/// when absent); `NOT` negates the first child's result only, and is true
/// of an empty child list; a node with neither part is true.
pub open spec fn spec_eval_expr(task: Task, e: FilterExpression) -> bool
    decreases e,
{
    if e.condition is Some {
        spec_eval_condition(task, e.condition->0)
    } else if e.expressions is Some {
        let es = (e.expressions->0)@;
        match e.logical_operator {
            Some(LogicalOperator::AND) => spec_eval_all(task, es),
            Some(LogicalOperator::OR) => spec_eval_any(task, es),
            Some(LogicalOperator::NOT) => !(if es.len() > 0 {
                spec_eval_expr(task, es[0])
            } else {
                false
            }),
            None => spec_eval_all(task, es),
        }
    } else {
        true
    }
}

/// Compares the canonical texts of a tag value and a condition literal.
fn texts_equal(tv: &TagValue, cv: &CondValue) -> (r: bool)
    ensures
        r == (tag_value_text(*tv) == cond_value_text(*cv)),
{
    let a = tv.to_string_value();
    let b = cond_text(cv);
    str_eq(a.as_str(), b.as_str())
}

/// The canonical text of a condition literal, as a fresh string.
pub fn cond_text(cv: &CondValue) -> (r: String)
    ensures
        r@ == cond_value_text(*cv),
{
    match cv {
        CondValue::String(s) => s.clone(),
        CondValue::Int(n) => {
            let mut r = String::new();
            crate::text::push_int(&mut r, *n as i128);
            r
        },
        CondValue::Float(d) => {
            let mut r = String::new();
            crate::text::push_decimal(&mut r, *d);
            r
        },
        CondValue::Bool(b) => {
            if *b {
                String::from_str("true")
            } else {
                String::from_str("false")
            }
        },
    }
}

/// The numeric micro-unit value of a tag value, when numeric.
fn tag_micros(tv: &TagValue) -> (r: Option<i128>)
    ensures
        match r {
            Some(m) => tag_value_micros(*tv) == Some(m as int),
            None => tag_value_micros(*tv) is None,
        },
{
    match tv {
        TagValue::Number(n) => Some((*n as i128) * 1_000_000),
        TagValue::Float(d) => Some(d.micros as i128),
        _ => None,
    }
}

/// The numeric micro-unit value of a condition literal, when numeric.
fn cond_micros(cv: &CondValue) -> (r: Option<i128>)
    ensures
        match r {
            Some(m) => cond_value_micros(*cv) == Some(m as int),
            None => cond_value_micros(*cv) is None,
        },
{
    match cv {
        CondValue::Int(n) => Some((*n as i128) * 1_000_000),
        CondValue::Float(d) => Some(d.micros as i128),
        _ => None,
    }
}

/// Evaluates the leaf condition `c` against `task`.
pub fn evaluate_condition(task: &Task, c: &FilterCondition) -> (r: bool)
    ensures
        r == spec_eval_condition(*task, *c),
{
    let tv = match task.front_matter.get(c.tag_key.as_str()) {
        Some(v) => v,
        None => {
            return false;
        },
    };
    match c.operator {
        ComparisonOperator::Equal => texts_equal(tv, &c.value),
        ComparisonOperator::NotEqual => !texts_equal(tv, &c.value),
        ComparisonOperator::GreaterThan => {
            match (tag_micros(tv), cond_micros(&c.value)) {
                (Some(a), Some(b)) => a > b,
                _ => false,
            }
        },
        ComparisonOperator::LessThan => {
            match (tag_micros(tv), cond_micros(&c.value)) {
                (Some(a), Some(b)) => a < b,
                _ => false,
            }
        },
        ComparisonOperator::GreaterThanOrEqual => {
            match (tag_micros(tv), cond_micros(&c.value)) {
                (Some(a), Some(b)) => a >= b,
                _ => false,
            }
        },
        ComparisonOperator::LessThanOrEqual => {
            match (tag_micros(tv), cond_micros(&c.value)) {
                (Some(a), Some(b)) => a <= b,
                _ => false,
            }
        },
        ComparisonOperator::Contains => string_op(tv, &c.value, 0),
        ComparisonOperator::StartsWith => string_op(tv, &c.value, 1),
        ComparisonOperator::EndsWith => string_op(tv, &c.value, 2),
        ComparisonOperator::Regex => string_op(tv, &c.value, 0),
    }
}

/// Applies the string operator selected by `which` (0 contains, 1 starts
/// with, 2 ends with) to a string tag value and a string literal.
fn string_op(tv: &TagValue, cv: &CondValue, which: u8) -> (r: bool)
    requires
        which < 3,
    ensures
        which == 0 ==> r == spec_string_op_contains(*tv, *cv),
        which == 1 ==> r == spec_string_op_starts(*tv, *cv),
        which == 2 ==> r == spec_string_op_ends(*tv, *cv),
{
    match (tv, cv) {
        (TagValue::String(s), CondValue::String(p)) => {
            if which == 0 {
                str_contains(s.as_str(), p.as_str())
            } else if which == 1 {
                str_starts_with(s.as_str(), p.as_str())
            } else {
                str_ends_with(s.as_str(), p.as_str())
            }
        },
        _ => false,
    }
}

/// Evaluates the expression `e` against `task`.
pub fn evaluate_filter_expression(task: &Task, e: &FilterExpression) -> (r: bool)
    ensures
        r == spec_eval_expr(*task, *e),
    decreases *e,
{
    if let Some(c) = &e.condition {
        return evaluate_condition(task, c);
    }
    if let Some(es) = &e.expressions {
        let mut results: Vec<bool> = Vec::new();
        let mut i: usize = 0;
        while i < es.len()
            invariant
                0 <= i <= es@.len(),
                results@.len() == i,
                e.expressions == Some(*es),
                forall|j: int| 0 <= j < i ==> results@[j] == spec_eval_expr(
                    *task,
                    #[trigger] es@[j],
                ),
            decreases es@.len() - i,
        {
            let child = &es[i];
            proof {
                assert(es@[i as int] == *child);
                assert(decreases_to!(*e => e.expressions));
                assert(decreases_to!(e.expressions => e.expressions->0));
                assert(decreases_to!(e.expressions->0 => es@));
                assert(decreases_to!(es@ => es@[i as int]));
                assert(decreases_to!(*e => *child));
            }
            let rr = evaluate_filter_expression(task, child);
            results.push(rr);
            i = i + 1;
        }
        let combined: bool = match &e.logical_operator {
            Some(LogicalOperator::AND) => all_true(&results),
            Some(LogicalOperator::OR) => any_true(&results),
            Some(LogicalOperator::NOT) => {
                let first: bool = if results.len() > 0 {
                    results[0]
                } else {
                    false
                };
                !first
            },
            None => all_true(&results),
        };
        proof {
            assert((forall|j: int| 0 <= j < results@.len() ==> results@[j]) == spec_eval_all(
                *task,
                es@,
            )) by {
                if forall|j: int| 0 <= j < results@.len() ==> results@[j] {
                    assert forall|k: int| 0 <= k < es@.len() implies spec_eval_expr(
                        *task,
                        #[trigger] es@[k],
                    ) by {
                        assert(results@[k]);
                    }
                } else {
                    let j = choose|j: int| 0 <= j < results@.len() && !results@[j];
                    assert(!spec_eval_expr(*task, es@[j]));
                }
            }
            assert((exists|j: int| 0 <= j < results@.len() && results@[j]) == spec_eval_any(
                *task,
                es@,
            )) by {
                if exists|j: int| 0 <= j < results@.len() && results@[j] {
                    let j = choose|j: int| 0 <= j < results@.len() && results@[j];
                    assert(spec_eval_expr(*task, es@[j]));
                }
                if spec_eval_any(*task, es@) {
                    let k = choose|k: int|
                        0 <= k < es@.len() && spec_eval_expr(*task, #[trigger] es@[k]);
                    assert(results@[k]);
                }
            }
            if results@.len() > 0 {
                assert(results@[0] == spec_eval_expr(*task, es@[0]));
            }
        }
        return combined;
    }
    true
}

/// Whether every element of `v` is true.
fn all_true(v: &Vec<bool>) -> (r: bool)
    ensures
        r == forall|j: int| 0 <= j < v@.len() ==> v@[j],
{
    let mut i: usize = 0;
    while i < v.len()
        invariant
            0 <= i <= v@.len(),
            forall|j: int| 0 <= j < i ==> v@[j],
        decreases v@.len() - i,
    {
        if !v[i] {
            return false;
        }
        i = i + 1;
    }
    true
}

/// Whether some element of `v` is true.
fn any_true(v: &Vec<bool>) -> (r: bool)
    ensures
        r == exists|j: int| 0 <= j < v@.len() && v@[j],
{
    let mut i: usize = 0;
    while i < v.len()
        invariant
            0 <= i <= v@.len(),
            forall|j: int| 0 <= j < i ==> !v@[j],
        decreases v@.len() - i,
    {
        if v[i] {
            return true;
        }
        i = i + 1;
    }
    false
}

/// The truth tables of composite evaluation over two children: `AND` and
/// `OR` follow boolean algebra, an absent operator behaves as `AND`, and
/// `NOT` reflects only the first child, whatever the second says.
pub proof fn lemma_composite_truth_tables(
    task: Task,
    c1: FilterExpression,
    c2: FilterExpression,
    e: FilterExpression,
)
    requires
        e.condition is None,
        e.expressions matches Some(v) && v@ =~= seq![c1, c2],
    ensures
        e.logical_operator == Some(LogicalOperator::AND) ==> spec_eval_expr(task, e) == (
        spec_eval_expr(task, c1) && spec_eval_expr(task, c2)),
        e.logical_operator == Some(LogicalOperator::OR) ==> spec_eval_expr(task, e) == (
        spec_eval_expr(task, c1) || spec_eval_expr(task, c2)),
        e.logical_operator == Some(LogicalOperator::NOT) ==> spec_eval_expr(task, e)
            == !spec_eval_expr(task, c1),
        e.logical_operator is None ==> spec_eval_expr(task, e) == (spec_eval_expr(task, c1)
            && spec_eval_expr(task, c2)),
{
    let es = (e.expressions->0)@;
    assert(es[0] == c1);
    assert(es[1] == c2);
    assert(spec_eval_all(task, es) == (spec_eval_expr(task, c1) && spec_eval_expr(task, c2)))
        by {
        if spec_eval_expr(task, c1) && spec_eval_expr(task, c2) {
            assert(forall|i: int| 0 <= i < es.len() ==> spec_eval_expr(
                task,
                #[trigger] es[i],
            )) by {
                assert(forall|i: int| 0 <= i < es.len() ==> es[i] == c1 || es[i] == c2);
            }
        }
    }
    assert(spec_eval_any(task, es) == (spec_eval_expr(task, c1) || spec_eval_expr(task, c2)))
        by {
        if spec_eval_expr(task, c1) {
            assert(spec_eval_expr(task, es[0]));
        } else if spec_eval_expr(task, c2) {
            assert(spec_eval_expr(task, es[1]));
        } else {
            assert(forall|i: int| 0 <= i < es.len() ==> es[i] == c1 || es[i] == c2);
        }
    }
}

} // verus!
