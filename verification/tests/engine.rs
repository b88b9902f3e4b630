//! Behavioural tests of the analysis engine: cycle detection, metric
//! aggregation, filter evaluation, the chart builders and the renderer.
use hienmark_analysis::chart::Chart;
use hienmark_analysis::filter::ComparisonOperator;
use hienmark_analysis::filter::CondValue;
use hienmark_analysis::filter::FilterCondition;
use hienmark_analysis::filter::FilterExpression;
use hienmark_analysis::filter::LogicalOperator;
use hienmark_analysis::filter::evaluate_filter_expression;
use hienmark_analysis::metric::Metric;
use hienmark_analysis::metric::MetricCalculationType;
use hienmark_analysis::model::FrontMatter;
use hienmark_analysis::model::TagCategory;
use hienmark_analysis::model::TagIndex;
use hienmark_analysis::model::Task;
use hienmark_analysis::model::Workspace;
use hienmark_analysis::service::AnalysisService;
use hienmark_analysis::values::Decimal;
use hienmark_analysis::values::TagValue;

fn s(text: &str) -> String {
    String::from(text)
}

fn task_with_tags(id: &str, tags: Vec<(&str, TagValue)>) -> Task {
    Task {
        id: s(id),
        front_matter: FrontMatter {
            tags: tags.into_iter().map(|(k, v)| (s(k), v)).collect(),
        },
        content: String::new(),
        modified_at: 0,
        tag_order: None,
    }
}

fn workspace_of(tasks: Vec<Task>) -> Workspace {
    Workspace {
        tasks,
        tag_index: TagIndex { categories: Vec::new() },
    }
}

fn create_test_workspace() -> Workspace {
    let task1 = task_with_tags(
        "task-1",
        vec![
            ("start_date", TagValue::String(s("2025-01-01"))),
            ("end_date", TagValue::String(s("2025-01-31"))),
            ("status", TagValue::String(s("open"))),
        ],
    );
    // an invalid date format keeps the task off the schedule
    let task2 = task_with_tags(
        "task-2",
        vec![
            ("start_date", TagValue::String(s("2025/01/01"))),
            ("end_date", TagValue::String(s("2025-01-31"))),
        ],
    );
    workspace_of(vec![task1, task2])
}

fn create_test_workspace_with_cycle() -> Workspace {
    let mut ws = create_test_workspace();
    ws.tasks.push(task_with_tags(
        "task-3",
        vec![
            ("start_date", TagValue::String(s("2025-02-01"))),
            ("end_date", TagValue::String(s("2025-02-28"))),
            ("depends_on", TagValue::Array(vec![s("task-4")])),
        ],
    ));
    ws.tasks.push(task_with_tags(
        "task-4",
        vec![
            ("start_date", TagValue::String(s("2025-03-01"))),
            ("end_date", TagValue::String(s("2025-03-31"))),
            ("depends_on", TagValue::Array(vec![s("task-3")])),
        ],
    ));
    ws
}

#[test]
fn test_extract_validated_date_string() {
    let task = task_with_tags(
        "test",
        vec![("start_date", TagValue::String(s("2025-01-01")))],
    );
    assert_eq!(
        AnalysisService::extract_validated_date_string(&task, "start_date"),
        Some(s("2025-01-01"))
    );
    let task_invalid = task_with_tags(
        "test",
        vec![("start_date", TagValue::String(s("2025/01/01")))],
    );
    assert_eq!(
        AnalysisService::extract_validated_date_string(&task_invalid, "start_date"),
        None
    );
}

#[test]
fn test_has_valid_date_fields() {
    let ws = create_test_workspace();
    assert!(AnalysisService::has_valid_date_fields(&ws.tasks[0]));
    assert!(!AnalysisService::has_valid_date_fields(&ws.tasks[1]));
}

#[test]
fn test_detect_cyclic_dependencies() {
    let ws = create_test_workspace_with_cycle();
    let cycles = AnalysisService::detect_cyclic_dependencies(&ws);
    assert!(!cycles.is_empty());
    assert!(cycles.iter().any(|c| c.contains("task-3")));
    assert!(cycles.iter().any(|c| c.contains("task-4")));
}

#[test]
fn acyclic_graph_reports_no_cycles() {
    let mut ws = create_test_workspace();
    ws.tasks.push(task_with_tags(
        "task-5",
        vec![("depends_on", TagValue::Array(vec![s("task-1")]))],
    ));
    let cycles = AnalysisService::detect_cyclic_dependencies(&ws);
    assert!(cycles.is_empty());
}

#[test]
fn dangling_dependencies_are_not_cycles() {
    let ws = workspace_of(vec![task_with_tags(
        "a",
        vec![("depends_on", TagValue::Array(vec![s("missing")]))],
    )]);
    assert!(AnalysisService::detect_cyclic_dependencies(&ws).is_empty());
}

#[test]
fn self_dependency_is_a_cycle() {
    let ws = workspace_of(vec![task_with_tags(
        "a",
        vec![("depends_on", TagValue::Array(vec![s("a")]))],
    )]);
    assert!(!AnalysisService::detect_cyclic_dependencies(&ws).is_empty());
}

#[test]
fn gantt_generation_includes_only_dated_tasks() {
    let ws = create_test_workspace();
    let out = AnalysisService::generate_gantt_chart_with_dsl(&ws).unwrap();
    assert!(out.mermaid.contains("gantt"));
    assert!(out.mermaid.contains("task 1"));
    assert!(!out.mermaid.contains("task 2"));
}

#[test]
fn gantt_generation_fails_on_cycles() {
    let ws = create_test_workspace_with_cycle();
    let result = AnalysisService::generate_gantt_chart_with_dsl(&ws);
    assert!(result.is_err());
    let msg = result.err().unwrap();
    assert!(msg.contains("task-3"));
    assert!(msg.contains("task-4"));
}

#[test]
fn gantt_empty_selection_yields_empty_chart() {
    let ws = workspace_of(vec![task_with_tags("bare", vec![])]);
    let out = AnalysisService::generate_gantt_chart_with_dsl(&ws).unwrap();
    match out.data {
        Chart::Gantt(g) => {
            assert_eq!(g.title, "Task Schedule");
            assert_eq!(g.date_format, "YYYY-MM-DD");
            assert!(g.sections.is_empty());
        }
        _ => panic!("expected a schedule document"),
    }
}

#[test]
fn schedule_scenario_orders_and_links_tasks() {
    let a = task_with_tags(
        "A",
        vec![
            ("start_date", TagValue::String(s("2025-01-01"))),
            ("end_date", TagValue::String(s("2025-01-10"))),
            ("status", TagValue::String(s("open"))),
        ],
    );
    let b = task_with_tags(
        "B",
        vec![
            ("start_date", TagValue::String(s("2025-01-05"))),
            ("end_date", TagValue::String(s("2025-01-12"))),
            ("status", TagValue::String(s("open"))),
            ("depends_on", TagValue::Array(vec![s("A")])),
        ],
    );
    let ws = workspace_of(vec![b, a]);
    let out = AnalysisService::generate_gantt_chart_with_dsl(&ws).unwrap();
    match out.data {
        Chart::Gantt(g) => {
            assert_eq!(g.sections.len(), 1);
            assert_eq!(g.sections[0].name, "open");
            assert_eq!(g.sections[0].tasks.len(), 2);
            assert_eq!(g.sections[0].tasks[0].id, "A");
            assert_eq!(g.sections[0].tasks[1].id, "B");
            assert_eq!(g.sections[0].tasks[1].depends_on, Some(s("A")));
        }
        _ => panic!("expected a schedule document"),
    }
    assert!(out.mermaid.contains(":after A"));
}

#[test]
fn schedule_is_order_independent() {
    let a = task_with_tags(
        "A",
        vec![
            ("start_date", TagValue::String(s("2025-01-01"))),
            ("end_date", TagValue::String(s("2025-01-10"))),
        ],
    );
    let b = task_with_tags(
        "B",
        vec![
            ("start_date", TagValue::String(s("2025-01-05"))),
            ("end_date", TagValue::String(s("2025-01-12"))),
        ],
    );
    let c = task_with_tags(
        "C",
        vec![
            ("start_date", TagValue::String(s("2025-01-05"))),
            ("end_date", TagValue::String(s("2025-01-20"))),
        ],
    );
    let ws1 = workspace_of(vec![a.clone(), b.clone(), c.clone()]);
    let ws2 = workspace_of(vec![c, b, a]);
    let out1 = AnalysisService::generate_gantt_chart_with_dsl(&ws1).unwrap();
    let out2 = AnalysisService::generate_gantt_chart_with_dsl(&ws2).unwrap();
    assert_eq!(out1.mermaid, out2.mermaid);
}

#[test]
fn gantt_mapped_uses_custom_fields() {
    let t = task_with_tags(
        "t1",
        vec![
            ("from", TagValue::String(s("2025-04-01"))),
            ("to", TagValue::String(s("2025-04-05"))),
            ("phase", TagValue::String(s("build"))),
            ("label", TagValue::String(s("First step"))),
        ],
    );
    let ws = workspace_of(vec![t]);
    let out = AnalysisService::generate_gantt_chart_with_dsl_mapped(
        &ws,
        Some("label"),
        Some("from"),
        Some("to"),
        None,
        Some("phase"),
    )
    .unwrap();
    match out.data {
        Chart::Gantt(g) => {
            assert_eq!(g.sections[0].name, "build");
            assert_eq!(g.sections[0].tasks[0].title, "First step");
            assert_eq!(g.sections[0].tasks[0].start, "2025-04-01");
        }
        _ => panic!("expected a schedule document"),
    }
}

#[test]
fn gantt_date_range_overlap_filter() {
    let inside = task_with_tags(
        "in-span",
        vec![
            ("start_date", TagValue::String(s("2025-01-05"))),
            ("end_date", TagValue::String(s("2025-01-20"))),
        ],
    );
    let outside = task_with_tags(
        "out-span",
        vec![
            ("start_date", TagValue::String(s("2025-03-01"))),
            ("end_date", TagValue::String(s("2025-03-05"))),
        ],
    );
    let ws = workspace_of(vec![inside, outside]);
    let out = AnalysisService::generate_gantt_chart_with_dsl_filtered(
        &ws,
        None,
        Some("2025-01-10"),
        Some("2025-02-01"),
    )
    .unwrap();
    assert!(out.mermaid.contains("in span"));
    assert!(!out.mermaid.contains("out span"));
}

fn metric(kind: MetricCalculationType, source: Option<&str>, filter: Option<FilterExpression>) -> Metric {
    Metric {
        id: s("m1"),
        name: s("My Metric"),
        calculation_type: kind,
        source_tag: source.map(s),
        filter_expression: filter,
        is_default: None,
    }
}

fn leaf(key: &str, op: ComparisonOperator, value: CondValue) -> FilterExpression {
    FilterExpression {
        condition: Some(FilterCondition {
            tag_key: s(key),
            operator: op,
            value,
        }),
        expressions: None,
        logical_operator: None,
    }
}

fn composite(children: Vec<FilterExpression>, op: Option<LogicalOperator>) -> FilterExpression {
    FilterExpression {
        condition: None,
        expressions: Some(children),
        logical_operator: op,
    }
}

#[test]
fn count_metric_counts_filtered_records() {
    let tasks = vec![
        task_with_tags("a", vec![("status", TagValue::String(s("open")))]),
        task_with_tags("b", vec![("status", TagValue::String(s("done")))]),
        task_with_tags("c", vec![("status", TagValue::String(s("open")))]),
    ];
    let f = leaf("status", ComparisonOperator::Equal, CondValue::String(s("open")));
    let m = metric(MetricCalculationType::Count, None, Some(f));
    let v = m.evaluate(&tasks);
    assert_eq!(v.micros, 2 * 1_000_000);
}

#[test]
fn sum_metric_with_absent_source_tag_is_zero() {
    let tasks = vec![
        task_with_tags("a", vec![("status", TagValue::String(s("open")))]),
        task_with_tags("b", vec![]),
    ];
    let m = metric(MetricCalculationType::Sum, Some("points"), None);
    assert_eq!(m.evaluate(&tasks).micros, 0);
}

#[test]
fn sum_metric_totals_numeric_values() {
    let tasks = vec![
        task_with_tags("a", vec![("points", TagValue::Number(3))]),
        task_with_tags("b", vec![("points", TagValue::Float(Decimal { micros: 2_500_000 }))]),
        task_with_tags("c", vec![("points", TagValue::String(s("n/a")))]),
    ];
    let m = metric(MetricCalculationType::Sum, Some("points"), None);
    assert_eq!(m.evaluate(&tasks).micros, 5_500_000);
}

#[test]
fn average_divides_by_numeric_count_only() {
    // three of five records carry a numeric source tag: divisor is three
    let tasks = vec![
        task_with_tags("a", vec![("points", TagValue::Number(1))]),
        task_with_tags("b", vec![("points", TagValue::Number(2))]),
        task_with_tags("c", vec![("points", TagValue::Number(6))]),
        task_with_tags("d", vec![("points", TagValue::String(s("x")))]),
        task_with_tags("e", vec![]),
    ];
    let m = metric(MetricCalculationType::Average, Some("points"), None);
    assert_eq!(m.evaluate(&tasks).micros, 3 * 1_000_000);
}

#[test]
fn average_without_numeric_values_is_zero() {
    let tasks = vec![task_with_tags("a", vec![("points", TagValue::Bool(true))])];
    let m = metric(MetricCalculationType::Average, Some("points"), None);
    assert_eq!(m.evaluate(&tasks).micros, 0);
}

#[test]
fn composite_truth_tables() {
    let task = task_with_tags(
        "t",
        vec![
            ("status", TagValue::String(s("open"))),
            ("points", TagValue::Number(5)),
        ],
    );
    let yes = || leaf("status", ComparisonOperator::Equal, CondValue::String(s("open")));
    let no = || leaf("points", ComparisonOperator::GreaterThan, CondValue::Int(10));
    assert!(evaluate_filter_expression(&task, &yes()));
    assert!(!evaluate_filter_expression(&task, &no()));

    let and_tf = composite(vec![yes(), no()], Some(LogicalOperator::AND));
    let and_tt = composite(vec![yes(), yes()], Some(LogicalOperator::AND));
    let or_tf = composite(vec![yes(), no()], Some(LogicalOperator::OR));
    let or_ff = composite(vec![no(), no()], Some(LogicalOperator::OR));
    assert!(!evaluate_filter_expression(&task, &and_tf));
    assert!(evaluate_filter_expression(&task, &and_tt));
    assert!(evaluate_filter_expression(&task, &or_tf));
    assert!(!evaluate_filter_expression(&task, &or_ff));

    // NOT reflects only the first child, whatever the second says
    let not_tf = composite(vec![yes(), no()], Some(LogicalOperator::NOT));
    let not_ft = composite(vec![no(), yes()], Some(LogicalOperator::NOT));
    assert!(!evaluate_filter_expression(&task, &not_tf));
    assert!(evaluate_filter_expression(&task, &not_ft));

    // a missing operator combines with AND
    let none_tf = composite(vec![yes(), no()], None);
    assert!(!evaluate_filter_expression(&task, &none_tf));
}

#[test]
fn absent_tag_never_matches() {
    let task = task_with_tags("t", vec![]);
    let eq = leaf("status", ComparisonOperator::Equal, CondValue::String(s("")));
    let ne = leaf("status", ComparisonOperator::NotEqual, CondValue::String(s("x")));
    assert!(!evaluate_filter_expression(&task, &eq));
    assert!(!evaluate_filter_expression(&task, &ne));
}

#[test]
fn string_operators_match_strings_only() {
    let task = task_with_tags(
        "t",
        vec![
            ("name", TagValue::String(s("hello world"))),
            ("points", TagValue::Number(7)),
        ],
    );
    let contains = leaf("name", ComparisonOperator::Contains, CondValue::String(s("lo wo")));
    let starts = leaf("name", ComparisonOperator::StartsWith, CondValue::String(s("hell")));
    let ends = leaf("name", ComparisonOperator::EndsWith, CondValue::String(s("world")));
    let regex = leaf("name", ComparisonOperator::Regex, CondValue::String(s("world")));
    let on_number = leaf("points", ComparisonOperator::Contains, CondValue::String(s("7")));
    assert!(evaluate_filter_expression(&task, &contains));
    assert!(evaluate_filter_expression(&task, &starts));
    assert!(evaluate_filter_expression(&task, &ends));
    assert!(evaluate_filter_expression(&task, &regex));
    assert!(!evaluate_filter_expression(&task, &on_number));
}

#[test]
fn ordering_operators_are_numeric_only() {
    let task = task_with_tags(
        "t",
        vec![
            ("points", TagValue::Number(5)),
            ("weight", TagValue::Float(Decimal { micros: 2_500_000 })),
            ("name", TagValue::String(s("5"))),
        ],
    );
    let gt = leaf("points", ComparisonOperator::GreaterThan, CondValue::Int(4));
    let le = leaf("weight", ComparisonOperator::LessThanOrEqual, CondValue::Float(Decimal { micros: 2_500_000 }));
    let string_gt = leaf("name", ComparisonOperator::GreaterThan, CondValue::Int(4));
    assert!(evaluate_filter_expression(&task, &gt));
    assert!(evaluate_filter_expression(&task, &le));
    assert!(!evaluate_filter_expression(&task, &string_gt));
}

#[test]
fn equality_compares_canonical_text() {
    let task = task_with_tags(
        "t",
        vec![
            ("points", TagValue::Number(3)),
            ("flag", TagValue::Bool(true)),
        ],
    );
    let eq_num = leaf("points", ComparisonOperator::Equal, CondValue::String(s("3")));
    let eq_flag = leaf("flag", ComparisonOperator::Equal, CondValue::Bool(true));
    assert!(evaluate_filter_expression(&task, &eq_num));
    assert!(evaluate_filter_expression(&task, &eq_flag));
}

fn indexed_workspace() -> Workspace {
    Workspace {
        tasks: Vec::new(),
        tag_index: TagIndex {
            categories: vec![TagCategory {
                name: s("status"),
                values: vec![(s("todo"), 2), (s("done"), 1)],
                task_ids: vec![s("a"), s("b"), s("c")],
            }],
        },
    }
}

#[test]
fn pie_scenario_from_category_index() {
    let ws = indexed_workspace();
    let out = AnalysisService::generate_pie_chart_with_dsl(&ws, "status").unwrap();
    match out.data {
        Chart::Pie(p) => {
            assert_eq!(p.title, "status Distribution");
            let mut pairs: Vec<(String, u64)> =
                p.categories.iter().map(|c| (c.label.clone(), c.count)).collect();
            pairs.sort();
            assert_eq!(pairs, vec![(s("done"), 1), (s("todo"), 2)]);
        }
        _ => panic!("expected a pie document"),
    }
    assert!(out.mermaid.contains("\"todo\" : 2"));
    assert!(out.mermaid.contains("\"done\" : 1"));
}

#[test]
fn pie_unknown_category_is_an_error() {
    let ws = indexed_workspace();
    assert!(AnalysisService::generate_pie_chart_with_dsl(&ws, "missing").is_err());
    assert!(AnalysisService::generate_bar_chart_with_dsl(&ws, "missing").is_err());
}

#[test]
fn bar_orders_axis_by_label() {
    let ws = indexed_workspace();
    let out = AnalysisService::generate_bar_chart_with_dsl(&ws, "status").unwrap();
    match out.data {
        Chart::Bar(b) => {
            assert_eq!(b.title, "status");
            assert_eq!(b.x_axis, vec![s("done"), s("todo")]);
            assert_eq!(b.values, vec![1, 2]);
            assert_eq!(b.max_value, 2);
            assert_eq!(b.y_axis_label, "Count");
        }
        _ => panic!("expected a bar document"),
    }
    assert!(out.mermaid.contains("y-axis \"Count\" 0 --> 7"));
    assert!(out.mermaid.contains("bar [1, 2]"));
}

#[test]
fn pie_scan_counts_strings_and_arrays() {
    let ws = workspace_of(vec![
        task_with_tags("a", vec![("tag", TagValue::Array(vec![s("x"), s("y")]))]),
        task_with_tags("b", vec![("tag", TagValue::String(s("x")))]),
        task_with_tags("c", vec![("other", TagValue::String(s("z")))]),
    ]);
    let out = AnalysisService::generate_pie_chart_with_dsl_filtered(&ws, "tag", None, None, None)
        .unwrap();
    match out.data {
        Chart::Pie(p) => {
            let pairs: Vec<(String, u64)> =
                p.categories.iter().map(|c| (c.label.clone(), c.count)).collect();
            assert_eq!(pairs, vec![(s("x"), 2), (s("y"), 1)]);
        }
        _ => panic!("expected a pie document"),
    }
}

#[test]
fn pie_scan_with_no_matches_is_empty_not_an_error() {
    let ws = workspace_of(vec![task_with_tags("a", vec![])]);
    let out = AnalysisService::generate_pie_chart_with_dsl_filtered(&ws, "tag", None, None, None)
        .unwrap();
    match out.data {
        Chart::Pie(p) => assert!(p.categories.is_empty()),
        _ => panic!("expected a pie document"),
    }
}

#[test]
fn date_range_filter_retains_only_matching_records() {
    let ws = workspace_of(vec![
        task_with_tags(
            "jan",
            vec![("due", TagValue::String(s("2025-01-15"))), ("kind", TagValue::String(s("t")))],
        ),
        task_with_tags(
            "feb",
            vec![("due", TagValue::String(s("2025-02-10"))), ("kind", TagValue::String(s("t")))],
        ),
        task_with_tags(
            "mar",
            vec![("due", TagValue::String(s("2025-03-01"))), ("kind", TagValue::String(s("t")))],
        ),
    ]);
    let out = AnalysisService::generate_bar_chart_with_dsl_filtered(
        &ws,
        "kind",
        Some("due"),
        Some("2025-02-01"),
        Some("2025-02-28"),
    )
    .unwrap();
    match out.data {
        Chart::Bar(b) => {
            assert_eq!(b.x_axis, vec![s("t")]);
            assert_eq!(b.values, vec![1]);
        }
        _ => panic!("expected a bar document"),
    }
}

#[test]
fn line_buckets_by_date_chronologically() {
    let ws = workspace_of(vec![
        task_with_tags("a", vec![("done_at", TagValue::String(s("2025-01-20")))]),
        task_with_tags("b", vec![("done_at", TagValue::String(s("2025-01-15")))]),
        task_with_tags("c", vec![("done_at", TagValue::String(s("2025-01-20")))]),
        task_with_tags("d", vec![("done_at", TagValue::String(s("not a date")))]),
    ]);
    let out =
        AnalysisService::generate_line_chart_with_dsl(&ws, "done_at", None, None).unwrap();
    match out.data {
        Chart::Line(l) => {
            assert_eq!(l.title, "Tasks by done_at");
            assert_eq!(l.y_axis_label, "Count");
            assert_eq!(l.series.len(), 2);
            assert_eq!(l.series[0].date, "2025-01-15");
            assert_eq!(l.series[0].value.micros, 1_000_000);
            assert_eq!(l.series[1].date, "2025-01-20");
            assert_eq!(l.series[1].value.micros, 2_000_000);
        }
        _ => panic!("expected a line document"),
    }
    assert!(out.mermaid.contains("\"01/15\", \"01/20\""));
    assert!(out.mermaid.contains("line [1, 2]"));
}

#[test]
fn line_with_metric_uses_its_name_and_value() {
    let ws = workspace_of(vec![
        task_with_tags(
            "a",
            vec![
                ("done_at", TagValue::String(s("2025-01-15"))),
                ("points", TagValue::Number(2)),
            ],
        ),
        task_with_tags(
            "b",
            vec![
                ("done_at", TagValue::String(s("2025-01-15"))),
                ("points", TagValue::Number(3)),
            ],
        ),
    ]);
    let m = metric(MetricCalculationType::Sum, Some("points"), None);
    let out = AnalysisService::generate_line_chart_with_dsl(
        &ws,
        "done_at",
        Some("Points"),
        Some(&m),
    )
    .unwrap();
    match out.data {
        Chart::Line(l) => {
            assert_eq!(l.title, "My Metric by done_at");
            assert_eq!(l.y_axis_label, "Points");
            assert_eq!(l.series[0].value.micros, 5_000_000);
        }
        _ => panic!("expected a line document"),
    }
    assert!(out.mermaid.contains("line [5]"));
}

#[test]
fn line_renders_fractions_to_one_decimal() {
    let ws = workspace_of(vec![
        task_with_tags(
            "a",
            vec![
                ("done_at", TagValue::String(s("2025-01-15"))),
                ("points", TagValue::Float(Decimal { micros: 2_500_000 })),
            ],
        ),
    ]);
    let m = metric(MetricCalculationType::Average, Some("points"), None);
    let out =
        AnalysisService::generate_line_chart_with_dsl(&ws, "done_at", None, Some(&m)).unwrap();
    assert!(out.mermaid.contains("line [2.5]"));
}

#[test]
fn line_date_range_bounds_the_buckets() {
    let ws = workspace_of(vec![
        task_with_tags("a", vec![("due", TagValue::String(s("2025-01-15")))]),
        task_with_tags("b", vec![("due", TagValue::String(s("2025-02-10")))]),
        task_with_tags("c", vec![("due", TagValue::String(s("2025-03-01")))]),
    ]);
    let out = AnalysisService::generate_line_chart_with_dsl_filtered(
        &ws,
        "due",
        Some("2025-02-01"),
        Some("2025-02-28"),
        None,
        None,
    )
    .unwrap();
    match out.data {
        Chart::Line(l) => {
            assert_eq!(l.series.len(), 1);
            assert_eq!(l.series[0].date, "2025-02-10");
        }
        _ => panic!("expected a line document"),
    }
}

#[test]
fn rendered_gantt_reparses_to_document_fields() {
    let ws = create_test_workspace();
    let out = AnalysisService::generate_gantt_chart_with_dsl(&ws).unwrap();
    let doc = match out.data {
        Chart::Gantt(g) => g,
        _ => panic!("expected a schedule document"),
    };
    let lines: Vec<&str> = out.mermaid.split('\n').collect();
    assert_eq!(lines[0], "gantt");
    assert_eq!(lines[1].trim_start().strip_prefix("dateFormat").unwrap().trim(), doc.date_format);
    assert_eq!(lines[2].trim_start().strip_prefix("title").unwrap().trim(), doc.title);
    assert_eq!(lines[4].trim_start().strip_prefix("section ").unwrap(), doc.sections[0].name);
    let task_line = lines[5].trim_start();
    assert!(task_line.starts_with(&doc.sections[0].tasks[0].title));
    assert!(task_line.ends_with(&format!(
        ":{}, {}",
        doc.sections[0].tasks[0].start, doc.sections[0].tasks[0].end
    )));
}

#[test]
fn rendered_pie_reparses_to_document_fields() {
    let ws = indexed_workspace();
    let out = AnalysisService::generate_pie_chart_with_dsl(&ws, "status").unwrap();
    let doc = match out.data {
        Chart::Pie(p) => p,
        _ => panic!("expected a pie document"),
    };
    let lines: Vec<&str> = out.mermaid.split('\n').collect();
    assert_eq!(lines[0], "pie");
    assert_eq!(lines[1].trim_start().strip_prefix("title ").unwrap(), doc.title);
    for (i, cat) in doc.categories.iter().enumerate() {
        let line = lines[2 + i].trim_start();
        let (label, count) = line.split_once(" : ").unwrap();
        assert_eq!(label.trim_matches('"'), cat.label);
        assert_eq!(count.parse::<u64>().unwrap(), cat.count);
    }
}

#[test]
fn rendered_bar_reparses_to_document_fields() {
    let ws = indexed_workspace();
    let out = AnalysisService::generate_bar_chart_with_dsl(&ws, "status").unwrap();
    let doc = match out.data {
        Chart::Bar(b) => b,
        _ => panic!("expected a bar document"),
    };
    let lines: Vec<&str> = out.mermaid.split('\n').collect();
    assert_eq!(lines[0], "xychart-beta");
    assert_eq!(lines[1].trim_start(), format!("title \"{}\"", doc.title));
    let labels: Vec<String> = lines[3]
        .trim_start()
        .split(", ")
        .map(|l| l.trim_matches('"').to_string())
        .collect();
    assert_eq!(labels, doc.x_axis);
    let values: Vec<u64> = lines[6]
        .trim_start()
        .strip_prefix("bar [")
        .unwrap()
        .strip_suffix("]")
        .unwrap()
        .split(", ")
        .map(|v| v.parse().unwrap())
        .collect();
    assert_eq!(values, doc.values);
}

#[test]
fn rendered_line_reparses_to_document_fields() {
    let ws = workspace_of(vec![
        task_with_tags("a", vec![("due", TagValue::String(s("2025-01-15")))]),
        task_with_tags("b", vec![("due", TagValue::String(s("2025-02-10")))]),
    ]);
    let out = AnalysisService::generate_line_chart_with_dsl(&ws, "due", None, None).unwrap();
    let doc = match out.data {
        Chart::Line(l) => l,
        _ => panic!("expected a line document"),
    };
    let lines: Vec<&str> = out.mermaid.split('\n').collect();
    assert_eq!(lines[1].trim_start(), format!("title \"{}\"", doc.title));
    let values: Vec<String> = lines[6]
        .trim_start()
        .strip_prefix("line [")
        .unwrap()
        .strip_suffix("]")
        .unwrap()
        .split(", ")
        .map(|v| v.to_string())
        .collect();
    assert_eq!(values.len(), doc.series.len());
    for (v, p) in values.iter().zip(doc.series.iter()) {
        assert_eq!(v.parse::<i128>().unwrap() * 1_000_000, p.value.micros);
    }
}

#[test]
fn tag_value_canonical_text() {
    assert_eq!(TagValue::String(s("abc")).to_string_value(), "abc");
    assert_eq!(TagValue::Number(-42).to_string_value(), "-42");
    assert_eq!(TagValue::Bool(false).to_string_value(), "false");
    assert_eq!(
        TagValue::Float(Decimal { micros: 2_500_000 }).to_string_value(),
        "2.5"
    );
    assert_eq!(TagValue::Float(Decimal { micros: 3_000_000 }).to_string_value(), "3");
    assert_eq!(
        TagValue::Float(Decimal { micros: -1_230_000 }).to_string_value(),
        "-1.23"
    );
    assert_eq!(
        TagValue::Array(vec![s("x"), s("y")]).to_string_value(),
        "[x, y]"
    );
}

#[test]
fn tag_category_new_starts_empty() {
    let cat = TagCategory::new(s("status"));
    assert_eq!(cat.name, "status");
    assert!(cat.values.is_empty());
    assert!(cat.task_ids.is_empty());
}
