use ais_analytics::discover::{analyze, unit_of, Insights};
use ais_analytics::json::{parse, Json};
use ais_analytics::loganalytics::TimeRange;
use ais_analytics::order::TextSet;
use ais_analytics::schema::{FieldInfo, TableSchema};
use ais_analytics::signals::{
    assemble_signals, bucket, build_operation, build_point, copy_rules, failure_expr, has_column,
    load_queries, number, operations_query, propose, propose_dependencies, rows_in, series_query,
    text, Signals, Spec,
};
use ais_analytics::signals_view::is_ungrouped;
use ais_analytics::trace::ErrorRule;

fn json(text: &str) -> Json {
    parse(text).expect("valid JSON")
}

/// What a number kept as text comes to; none counts as nothing.
fn value(n: &Option<String>) -> f64 {
    n.as_ref().and_then(|t| t.parse().ok()).unwrap_or(0.0)
}

fn spec() -> Spec {
    Spec {
        table: "AppRequests".into(),
        time_field: "TimeGenerated".into(),
        duration_field: "DurationMs".into(),
        label_field: "Name".into(),
        key_field: "OperationId".into(),
        weight_field: "ItemCount".into(),
        rules: vec![ErrorRule {
            field: "success".into(),
            display: "Success".into(),
            value: "false".into(),
        }],
    }
}

/// Sampled telemetry stores one row per N occurrences. Counting rows
/// under-reports the busiest operations, which are the ones worth
/// finding, so the multiplier is used wherever it exists.
#[test]
fn sampling_is_accounted_for_when_the_table_carries_a_multiplier() {
    let kql = series_query(&spec(), "5m");
    assert!(kql.contains("Total = sum(['ItemCount'])"), "got: {kql}");
    assert!(kql.contains("sumif(['ItemCount']"), "got: {kql}");

    let plain = Spec {
        weight_field: String::new(),
        ..spec()
    };
    let kql = series_query(&plain, "5m");
    assert!(kql.contains("Total = count()"), "got: {kql}");
    assert!(kql.contains("countif("), "got: {kql}");
}

/// Failure is domain knowledge, never a guess. With no rules the line is
/// flat zero rather than an invented definition of "bad".
#[test]
fn without_error_rules_nothing_is_called_a_failure() {
    let bare = Spec {
        rules: Vec::new(),
        ..spec()
    };
    assert!(!bare.knows_failure());
    assert!(series_query(&bare, "5m").contains("Failed = 0"));
}

/// A workspace that records no duration still gets rate and failures.
#[test]
fn a_missing_duration_drops_the_percentiles_rather_than_the_view() {
    let no_duration = Spec {
        duration_field: String::new(),
        ..spec()
    };
    let kql = series_query(&no_duration, "5m");
    assert!(!kql.contains("percentile"), "got: {kql}");
    assert!(kql.contains("Total = "), "got: {kql}");
}

/// Every operation row has to carry a way through to the flow behind it,
/// or the view is just a prettier portal.
#[test]
fn every_operation_row_carries_a_value_to_trace() {
    let kql = operations_query(&spec());
    assert!(
        kql.contains("SampleKey = any(tostring(['OperationId']))"),
        "got: {kql}"
    );
}

/// Rule values reach the query as literals and must not be able to close
/// the string and continue it.
#[test]
fn a_hostile_rule_value_cannot_escape_the_query() {
    let hostile = Spec {
        rules: vec![ErrorRule {
            field: "resultcode".into(),
            display: "ResultCode".into(),
            value: r#"x" or 1==1 //"#.into(),
        }],
        ..spec()
    };
    let kql = series_query(&hostile, "5m");
    // Escaped and still inside the literal: the injected pipe never
    // becomes an operator.
    assert!(kql.contains(r#""x\" or 1==1 //""#), "got: {kql}");
}

/// Comparison is textual and case-insensitive, so a rule written for an
/// int column still matches when the value arrives as a string.
#[test]
fn rules_compare_as_text_so_the_declared_type_does_not_matter() {
    let kql = series_query(&spec(), "5m");
    assert!(
        kql.contains(r#"tostring(['success']) =~ "false""#),
        "got: {kql}"
    );
}

#[test]
fn rows_become_points_and_operations() {
    let point = build_point(&json(
        r#"{
            "At": "2026-09-08T11:00:00Z",
            "Total": 120, "Failed": 3, "P50": 12.5, "P95": 340.0, "P99": 900.0
        }"#,
    ))
    .expect("a row with a timestamp is a point");
    assert_eq!(value(&point.total), 120.0);
    assert!(point.p95.is_some());
    assert_eq!(value(&point.p95), 340.0);

    let op = build_operation(&json(
        r#"{
            "Label": "GET /orders", "Calls": 50, "Failures": 5,
            "P95": 210.0, "SampleKey": "abc123"
        }"#,
    ));
    assert_eq!(100.0 * value(&op.failures) / value(&op.calls), 10.0);
    assert_eq!(op.sample_key, "abc123");
}

/// A group with no label is still a real group; it must not vanish.
#[test]
fn an_unlabelled_operation_is_named_rather_than_blank() {
    let op = build_operation(&json(r#"{ "Calls": 1, "Failures": 0 }"#));
    assert_eq!(op.label, "(unnamed)");
}

fn num(name: &str) -> FieldInfo {
    FieldInfo {
        name: name.into(),
        kind: "real".into(),
        types: vec!["number".into()],
        seen_in: 1,
        distinct: 1,
        values: TextSet::new(),
    }
}

fn text_field(name: &str, values: &[&str]) -> FieldInfo {
    let mut set = TextSet::new();
    for v in values {
        set.insert(v.to_string());
    }
    FieldInfo {
        name: name.into(),
        kind: "string".into(),
        types: vec!["string".into()],
        seen_in: values.len(),
        distinct: set.len(),
        values: set,
    }
}

fn table(name: &str, rows: usize, fields: Vec<FieldInfo>) -> TableSchema {
    TableSchema {
        table: name.into(),
        sampled_rows: 20,
        rows_in_range: rows,
        fields,
    }
}

fn ids() -> Vec<&'static str> {
    vec![
        "2430dcbe991462aa4a1f0b2c3d4e5f60",
        "859356a0819103bb5b2f1c3d4e5f6071",
        "b28b3eb5e214b9cc6c3f2d4e5f607182",
    ]
}

fn fixture() -> (Vec<TableSchema>, Insights) {
    let schemas = vec![
        table(
            "AppRequests",
            500,
            vec![
                text_field("OperationId", &ids()),
                num("DurationMs"),
                num("ItemCount"),
                text_field("Name", &["GET /orders"]),
            ],
        ),
        table(
            "AppTraces",
            9000,
            vec![
                text_field("OperationId", &ids()),
                text_field("Message", &["hi"]),
            ],
        ),
    ];
    let insights = analyze(&schemas);
    (schemas, insights)
}

/// The busiest table is not the right one. `AppTraces` has twenty
/// times the rows, but no duration — the view would lose latency
/// entirely by following volume alone.
#[test]
fn the_table_where_the_key_and_a_duration_meet_wins_over_the_busiest() {
    let (schemas, insights) = fixture();
    let key = insights.keys.first().expect("a key was found");
    let spec = propose(&schemas, &insights, key, "TimeGenerated", "Name", &vec![]);

    assert_eq!(spec.table, "AppRequests");
    assert_eq!(spec.duration_field, "DurationMs");
    assert_eq!(spec.key_field, "OperationId");
}

/// Sampled telemetry names its multiplier; unsampled data has none.
/// Reading a column that is not one would inflate every count drawn.
#[test]
fn the_sampling_multiplier_is_found_by_name_not_assumed() {
    let (schemas, insights) = fixture();
    let key = insights.keys.first().expect("a key was found");
    let spec = propose(&schemas, &insights, key, "TimeGenerated", "Name", &vec![]);
    assert_eq!(spec.weight_field, "ItemCount");

    let plain = vec![table(
        "Orders_CL",
        10,
        vec![text_field("job_ref", &ids()), num("elapsed_ms")],
    )];
    let insights = analyze(&plain);
    let key = insights.keys.first().expect("a key was found");
    let spec = propose(&plain, &insights, key, "TimeGenerated", "", &vec![]);
    assert_eq!(spec.weight_field, "", "no multiplier means plain counting");
    assert_eq!(spec.duration_field, "elapsed_ms");
}

/// A workspace with no duration anywhere still gets rate and
/// failures rather than an empty screen.
#[test]
fn a_workspace_without_any_duration_still_gets_a_usable_spec() {
    let schemas = vec![table(
        "AppTraces",
        100,
        vec![
            text_field("OperationId", &ids()),
            text_field("Message", &["hi"]),
        ],
    )];
    let insights = analyze(&schemas);
    let key = insights.keys.first().expect("a key was found");
    let spec = propose(&schemas, &insights, key, "TimeGenerated", "", &vec![]);

    assert!(spec.is_usable());
    assert_eq!(spec.duration_field, "");
}

/// The dependency view is the same query grouped differently, and
/// it must land on the *outbound* table rather than the inbound one
/// the signals view picks.
#[test]
fn dependencies_group_by_target_on_the_table_that_has_one() {
    let schemas = vec![
        table(
            "AppRequests",
            500,
            vec![text_field("OperationId", &ids()), num("DurationMs")],
        ),
        table(
            "AppDependencies",
            300,
            vec![
                text_field("OperationId", &ids()),
                num("DurationMs"),
                text_field("Target", &["blob.core.windows.net", "api.example"]),
            ],
        ),
    ];
    let insights = analyze(&schemas);
    let key = insights.keys.first().expect("a key was found");

    let deps = propose_dependencies(&schemas, &insights, key, "TimeGenerated", &vec![]);
    assert_eq!(deps.table, "AppDependencies");
    assert_eq!(deps.label_field, "Target");
    assert_eq!(deps.duration_field, "DurationMs");

    // And the signals view still picks the busier inbound table.
    let sig = propose(&schemas, &insights, key, "TimeGenerated", "", &vec![]);
    assert_eq!(sig.table, "AppRequests");
}

/// No target anywhere means no dependency view, rather than a view
/// grouped on something that is not a dependency.
#[test]
fn without_a_target_there_is_no_dependency_spec() {
    let (schemas, insights) = fixture();
    let key = insights.keys.first().expect("a key was found");
    let deps = propose_dependencies(&schemas, &insights, key, "TimeGenerated", &vec![]);
    assert!(!deps.is_usable());
}

/// A timestamp the chosen table does not have would make every query
/// fail; ingestion time is always there and always correct.
#[test]
fn a_time_column_the_table_lacks_falls_back_to_ingestion_time() {
    let (schemas, insights) = fixture();
    let key = insights.keys.first().expect("a key was found");
    let spec = propose(&schemas, &insights, key, "EnqueuedAt", "Name", &vec![]);
    assert_eq!(spec.time_field, "TimeGenerated");
}

#[test]
fn buckets_grow_with_the_window() {
    let sizes: Vec<&str> = TimeRange::all().into_iter().map(bucket).collect();
    assert_eq!(sizes, vec!["1m", "2m", "5m", "15m", "1h", "6h"]);
}

#[test]
fn rules_are_alternatives_in_a_query() {
    let rule = |field: &str, value: &str| ErrorRule {
        field: field.into(),
        display: field.into(),
        value: value.into(),
    };
    assert_eq!(failure_expr(&vec![]), None);
    let expr = failure_expr(&vec![rule("a", "1"), rule("b", "2")]).expect("rules");
    assert_eq!(
        expr,
        r#"tostring(['a']) =~ "1" or tostring(['b']) =~ "2""#
    );
    let rules = vec![rule("a", "1")];
    assert_eq!(copy_rules(&rules), rules);
}

#[test]
fn signals_are_put_together_from_two_readings() {
    let both = load_queries(&spec(), TimeRange::LastHour).expect("a usable spec");
    assert_eq!(both.0, series_query(&spec(), bucket(TimeRange::LastHour)));
    assert_eq!(both.1, operations_query(&spec()));
    let unusable = Spec {
        table: String::new(),
        ..spec()
    };
    assert_eq!(load_queries(&unusable, TimeRange::LastHour), None);

    let series = vec![
        json(r#"{"At":"2026-09-08T11:00:00Z","Total":1,"Failed":0}"#),
        json(r#"{"Total":9}"#),
    ];
    let operations = vec![json(r#"{"Label":"AppRequests","Calls":1,"Failures":0}"#)];
    let signals = assemble_signals(&spec(), &series, &operations);
    assert!(!signals.is_empty());
    // A row without a time is no point.
    assert_eq!(signals.series.len(), 1);
    assert_eq!(signals.operations.len(), 1);
    assert!(is_ungrouped(&signals.operations, "AppRequests"));
    assert!(!is_ungrouped(&signals.operations, "Other"));
    assert_eq!(signals.unit, unit_of("DurationMs"));
    assert!(Signals::default().is_empty());
}

#[test]
fn cells_are_read_as_text_or_as_numbers() {
    let row = json(r#"{"n": 12.5, "s": "7", "b": true, "o": {"a": 1}, "x": null, "w": "word"}"#);
    assert_eq!(text(&row, "n"), "12.5");
    assert_eq!(text(&row, "b"), "true");
    assert_eq!(text(&row, "o"), "{\"a\":1}");
    assert_eq!(text(&row, "x"), "");
    assert_eq!(value(&number(&row, "n")), 12.5);
    assert_eq!(value(&number(&row, "s")), 7.0);
    assert_eq!(value(&number(&row, "w")), 0.0);
    assert_eq!(number(&row, "missing"), None);
}

#[test]
fn tables_are_looked_up_by_name() {
    let (schemas, _) = fixture();
    assert_eq!(rows_in(&schemas, "AppTraces"), 9000);
    assert_eq!(rows_in(&schemas, "None_CL"), 0);
    assert!(has_column(&schemas, "AppRequests", "durationms"));
    assert!(!has_column(&schemas, "AppTraces", "DurationMs"));
}

/// The duration that is in most tables need not be the one that the key
/// meets.
#[test]
fn any_duration_that_meets_the_key_is_found() {
    let schemas = vec![
        table("Jobs_CL", 10, vec![num("DurationMs")]),
        table("Runs_CL", 10, vec![num("DurationMs")]),
        table(
            "Orders_CL",
            5,
            vec![text_field("OperationId", &ids()), num("elapsed_ms")],
        ),
        table("AppTraces", 9000, vec![text_field("OperationId", &ids())]),
    ];
    let insights = analyze(&schemas);
    assert_eq!(insights.durations[0].label, "DurationMs");
    let key = insights
        .keys
        .iter()
        .find(|k| k.label == "OperationId")
        .expect("a key was found");
    let spec = propose(&schemas, &insights, key, "TimeGenerated", "", &vec![]);
    assert_eq!(spec.table, "Orders_CL");
    assert_eq!(spec.duration_field, "elapsed_ms");
}

#[test]
fn any_target_that_meets_the_key_is_found() {
    let schemas = vec![
        table("Jobs_CL", 10, vec![text_field("Target", &["queue"])]),
        table("Runs_CL", 10, vec![text_field("Target", &["queue"])]),
        table(
            "Calls_CL",
            5,
            vec![
                text_field("OperationId", &ids()),
                text_field("TargetHost", &["db-1"]),
            ],
        ),
        table("AppTraces", 9000, vec![text_field("OperationId", &ids())]),
    ];
    let insights = analyze(&schemas);
    assert_eq!(insights.targets[0].label, "Target");
    let key = insights
        .keys
        .iter()
        .find(|k| k.label == "OperationId")
        .expect("a key was found");
    let spec = propose_dependencies(&schemas, &insights, key, "TimeGenerated", &vec![]);
    assert_eq!(spec.table, "Calls_CL");
    assert_eq!(spec.label_field, "TargetHost");
}
