use ais_analytics::batch::{batch_bounds, count_batches, TABLES_PER_QUERY};
use ais_analytics::json::{parse, Json};
use ais_analytics::loganalytics::{ColumnMeta, TableMeta};
use ais_analytics::schema::{
    assemble_scan, declared_json_type, flatten, json_type_name, sample_query, scalar_repr,
    scan_queries, share_of, summarise, FieldInfo, TableSchema, MAX_DEPTH, SAMPLE_SIZE, SHARE_ONE,
};

fn json(text: &str) -> Json {
    parse(text).expect("valid JSON")
}

/// A share as a fraction.
fn fraction(share: u64) -> f64 {
    share as f64 / SHARE_ONE as f64
}

/// Case-insensitive column lookup, for assertions.
fn field<'a>(schema: &'a TableSchema, lower: &str) -> &'a FieldInfo {
    schema
        .fields
        .iter()
        .find(|f| f.name.to_lowercase() == lower)
        .unwrap_or_else(|| panic!("no field {lower}"))
}

fn meta(name: &str, columns: &[(&str, &str)]) -> TableMeta {
    TableMeta {
        name: name.into(),
        columns: columns
            .iter()
            .map(|(n, k)| ColumnMeta {
                name: (*n).into(),
                kind: (*k).into(),
            })
            .collect(),
    }
}

#[test]
fn every_table_is_named_and_fuzzed_in_the_sample_query() {
    let kql = sample_query(&vec!["AppTraces".to_string(), "MyApp_CL".to_string()]);
    assert!(kql.contains("['AppTraces']"));
    assert!(kql.contains("['MyApp_CL']"));
    // Without isfuzzy a single unqueryable table fails the whole batch.
    assert!(kql.contains("isfuzzy=true"));
    assert!(kql.contains("make_list(pack_all(), 20)"));
}

#[test]
fn dynamic_columns_are_flattened_into_dotted_paths() {
    let sample = vec![json(
        r#"{
            "TimeGenerated": "2026-01-04T10:00:00Z",
            "Properties": {"correlationId": "abc-123", "nested": {"deep": "v"}}
        }"#,
    )];
    let schema = summarise("AppTraces", 1, &sample, None);
    let names: Vec<&str> = schema.fields.iter().map(|f| f.name.as_str()).collect();
    assert!(names.contains(&"Properties.correlationId"), "got {names:?}");
    assert!(names.contains(&"Properties.nested.deep"), "got {names:?}");
}

#[test]
fn the_union_source_column_is_not_treated_as_a_field() {
    let sample = vec![json(r#"{"SourceTable": "AppTraces", "Message": "hello"}"#)];
    let schema = summarise("AppTraces", 1, &sample, None);
    assert!(
        schema.fields.iter().all(|f| f.name != "SourceTable"),
        "the injected source column must not become a candidate field"
    );
}

#[test]
fn declared_types_annotate_sampled_fields() {
    let sample = vec![json(
        r#"{"TimeGenerated": "2026-01-04T10:00:00Z", "OperationId": "a"}"#,
    )];
    let schema = summarise(
        "AppTraces",
        1,
        &sample,
        Some(&meta(
            "AppTraces",
            &[("TimeGenerated", "datetime"), ("OperationId", "string")],
        )),
    );
    assert!(field(&schema, "timegenerated").is_declared_time());
    assert!(!field(&schema, "operationid").is_declared_time());
}

/// A column the sample never populated still has to exist in the schema:
/// it is the difference between "nothing arrived here yet" and "this
/// table was never on the path".
#[test]
fn declared_columns_survive_an_empty_sample() {
    let schema = summarise(
        "AppRequests",
        0,
        &vec![],
        Some(&meta(
            "AppRequests",
            &[("OperationId", "string"), ("TimeGenerated", "datetime")],
        )),
    );
    assert_eq!(schema.sampled_rows, 0);
    assert_eq!(schema.rows_in_range, 0);
    let field = field(&schema, "operationid");
    assert_eq!(field.seen_in, 0);
    assert!(field.values.is_empty());
    // Present in the schema, but with no evidence behind it.
    assert_eq!(fraction(field.fill(0)), 0.0);
}

#[test]
fn fill_and_selectivity_read_off_the_sample() {
    let sample = vec![
        json(r#"{"OperationId": "a", "Level": "Info"}"#),
        json(r#"{"OperationId": "b", "Level": "Info"}"#),
        json(r#"{"Level": "Error"}"#),
    ];
    let schema = summarise("AppTraces", 3, &sample, None);
    let op = field(&schema, "operationid");
    assert_eq!(op.seen_in, 2);
    assert!((fraction(op.fill(3)) - 0.666).abs() < 0.01);
    assert_eq!(fraction(op.distinct_ratio()), 1.0);

    let level = field(&schema, "level");
    assert_eq!(level.seen_in, 3);
    assert_eq!(fraction(level.fill(3)), 1.0);
    // Two distinct values across three rows — a status, not an identity.
    assert!(fraction(level.distinct_ratio()) < 0.7);
}

#[test]
fn a_log_analytics_lane_is_just_the_table_name() {
    let schema = summarise("MyApp_CL", 0, &vec![], None);
    assert_eq!(schema.path(), "MyApp_CL");
}

#[test]
fn shares_are_exact_for_any_sample() {
    assert_eq!(share_of(1, 1), SHARE_ONE);
    assert_eq!(share_of(1, 2), SHARE_ONE / 2);
    assert_eq!(share_of(0, 5), 0);
    assert_eq!(share_of(3, 0), 0);
    for n in 1..21usize {
        assert_eq!(share_of(1, n) * n as u64, SHARE_ONE);
    }
}

#[test]
fn flattening_stops_at_the_depth_that_is_read() {
    assert_eq!(MAX_DEPTH, 3);
    let row = json(r#"{"a":{"b":{"c":{"d":{"e":1}}}}}"#);
    let paths: Vec<String> = flatten(&row).into_iter().map(|(p, _)| p).collect();
    assert!(paths.contains(&"a".to_string()));
    assert!(paths.contains(&"a.b".to_string()));
    assert!(paths.contains(&"a.b.c".to_string()));
    assert!(paths.iter().all(|p| !p.contains("e")), "got {paths:?}");
}

#[test]
fn values_are_named_by_their_json_type() {
    assert_eq!(json_type_name(&json("null")), "null");
    assert_eq!(json_type_name(&json("true")), "bool");
    assert_eq!(json_type_name(&json("1.5")), "number");
    assert_eq!(json_type_name(&json("\"x\"")), "string");
    assert_eq!(json_type_name(&json("[1]")), "array");
    assert_eq!(json_type_name(&json("{}")), "object");
}

#[test]
fn only_scalars_have_a_value_to_link_on() {
    assert_eq!(scalar_repr(&json("\"x\"")), Some("x".to_string()));
    assert_eq!(scalar_repr(&json("12")), Some("12".to_string()));
    assert_eq!(scalar_repr(&json("false")), None);
    assert_eq!(scalar_repr(&json("[1]")), None);
    assert_eq!(scalar_repr(&json("{}")), None);
}

#[test]
fn declared_kinds_stand_for_json_types() {
    let column = |kind: &str| ColumnMeta {
        name: "c".into(),
        kind: kind.into(),
    };
    assert_eq!(declared_json_type(&column("dynamic")), "object");
    assert_eq!(declared_json_type(&column("int")), "number");
    assert_eq!(declared_json_type(&column("real")), "number");
    assert_eq!(declared_json_type(&column("bool")), "bool");
    assert_eq!(declared_json_type(&column("guid")), "string");
}

#[test]
fn no_more_rows_are_summarised_than_a_sample_holds() {
    let sample: Vec<Json> = (0..SAMPLE_SIZE + 10)
        .map(|i| json(&format!("{{\"id\":\"value-{i}\"}}")))
        .collect();
    let schema = summarise("T", 1000, &sample, None);
    assert_eq!(schema.sampled_rows, SAMPLE_SIZE);
    assert_eq!(schema.rows_in_range, 1000);
    let f = field(&schema, "id");
    assert_eq!(f.values.len(), SAMPLE_SIZE);
    assert_eq!(f.distinct, SAMPLE_SIZE);
    assert_eq!(f.seen_in, SAMPLE_SIZE);
    assert_eq!(schema.clone(), schema);
}

#[test]
fn tables_are_sampled_in_batches_that_cover_them_all() {
    assert_eq!(count_batches(0), 0);
    assert_eq!(count_batches(TABLES_PER_QUERY), 1);
    assert_eq!(count_batches(TABLES_PER_QUERY + 1), 2);
    assert_eq!(
        batch_bounds(TABLES_PER_QUERY + 1, 1),
        (TABLES_PER_QUERY, TABLES_PER_QUERY + 1)
    );
    let declared: Vec<TableMeta> = (0..30).map(|i| meta(&format!("T{i}_CL"), &[])).collect();
    let queries = scan_queries(&declared);
    assert_eq!(queries.len(), 2);
    assert!(queries[0].contains("['T0_CL']") && !queries[0].contains("['T29_CL']"));
    assert!(queries[1].contains("['T29_CL']"));
}

#[test]
fn a_scan_keeps_every_declared_table() {
    let declared = vec![
        meta("AppTraces", &[("Message", "string")]),
        meta("Empty_CL", &[("Id", "string")]),
    ];
    let rows = vec![json(
        r#"{"SourceTable":"AppTraces","Rows":2,"Sample":[{"Message":"a"},{"Message":"b"}]}"#,
    )];
    let found = assemble_scan(&declared, &vec![Ok(rows), Err("one batch failed".to_string())]);
    let names: Vec<&str> = found.iter().map(|s| s.table.as_str()).collect();
    // The busiest first.
    assert_eq!(names, vec!["AppTraces", "Empty_CL"]);
    let read = found.iter().find(|s| s.table == "AppTraces").expect("read");
    assert_eq!(read.rows_in_range, 2);
    assert_eq!(read.sampled_rows, 2);
}
