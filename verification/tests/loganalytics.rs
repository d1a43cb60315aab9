use ais_analytics::home::range_of;
use ais_analytics::json::{parse, Json};
use ais_analytics::loganalytics::{
    answer_from, api_error_message, column_ref, describe_failure, dynamic_from, failure_from,
    kql_string, let_literal, metadata_from, metadata_url, query_url, read_answer, read_metadata,
    rows_of, table_ref, tables_of, unwrap_dynamic, TimeRange, MAX_DETAIL, MAX_ROWS,
};

fn json(text: &str) -> Json {
    parse(text).expect("valid JSON")
}

fn text(s: &str) -> Json {
    Json::Text(s.to_string())
}

#[test]
fn column_oriented_responses_become_row_objects() {
    let body = json(
        r#"{
            "tables": [{
                "name": "PrimaryResult",
                "columns": [
                    {"name": "TimeGenerated", "type": "datetime"},
                    {"name": "Message", "type": "string"},
                    {"name": "Missing", "type": "string"}
                ],
                "rows": [
                    ["2026-01-04T10:00:00Z", "started", null],
                    ["2026-01-04T10:00:01Z", "finished", "here"]
                ]
            }]
        }"#,
    );

    let rows = rows_of(&body);
    assert_eq!(rows.len(), 2);
    assert_eq!(rows[0].get("Message"), Some(&text("started")));
    // A null cell is absent rather than present-and-null, so the
    // fill-rate maths downstream counts it as "not set".
    assert!(rows[0].get("Missing").is_none());
    assert_eq!(rows[1].get("Missing"), Some(&text("here")));
}

#[test]
fn dynamic_columns_arriving_as_json_text_are_parsed() {
    let body = json(
        r#"{
            "tables": [{
                "name": "PrimaryResult",
                "columns": [{"name": "Properties", "type": "dynamic"}],
                "rows": [["{\"correlationId\":\"abc-123\"}"]]
            }]
        }"#,
    );

    let rows = rows_of(&body);
    // Must be a real nested object, so `Properties.correlationId`
    // resolves the same way it would on a table that sent an object.
    assert_eq!(
        rows[0].get("Properties").and_then(|p| p.get("correlationId")),
        Some(&text("abc-123"))
    );
}

#[test]
fn strings_that_merely_look_like_json_are_left_alone() {
    let body = json(
        r#"{
            "tables": [{
                "name": "PrimaryResult",
                "columns": [{"name": "Message", "type": "string"}],
                "rows": [["{not actually json"]]
            }]
        }"#,
    );
    assert_eq!(
        rows_of(&body)[0].get("Message"),
        Some(&text("{not actually json"))
    );
}

#[test]
fn a_named_result_table_is_preferred_over_position() {
    let body = json(
        r#"{
            "tables": [
                {"name": "Other", "columns": [{"name":"a","type":"string"}], "rows": [["wrong"]]},
                {"name": "PrimaryResult", "columns": [{"name":"a","type":"string"}], "rows": [["right"]]}
            ]
        }"#,
    );
    assert_eq!(rows_of(&body)[0].get("a"), Some(&text("right")));
}

/// No user-supplied text may end the literal and start being read as query
/// syntax.
#[test]
fn quotes_and_backslashes_cannot_escape_a_literal() {
    assert_eq!(kql_string("abc"), r#""abc""#);
    assert_eq!(kql_string(r#"a"b"#), r#""a\"b""#);
    assert_eq!(kql_string(r"a\b"), r#""a\\b""#);
    // The obvious injection: close the string, then append an operator.
    assert_eq!(
        kql_string(r#"x" | where 1==1 | take 1 //"#),
        r#""x\" | where 1==1 | take 1 //""#
    );
    // A trailing backslash must not escape the closing quote.
    assert_eq!(kql_string(r"trailing\"), r#""trailing\\""#);
    assert_eq!(kql_string("line\nbreak"), r#""line\nbreak""#);
}

#[test]
fn let_bindings_are_escaped_statements() {
    assert_eq!(let_literal("v", "abc"), r#"let v = "abc";"#);
    assert_eq!(let_literal("v", r#"a"b"#), r#"let v = "a\"b";"#);
}

#[test]
fn identifiers_are_bracket_quoted_and_paths_index_dynamics() {
    assert_eq!(column_ref("OperationId"), "['OperationId']");
    assert_eq!(
        column_ref("Properties.correlationId"),
        "['Properties']['correlationId']"
    );
    assert_eq!(column_ref("duration (ms)"), "['duration (ms)']");
    assert_eq!(table_ref("MyApp_CL"), "['MyApp_CL']");
    assert_eq!(table_ref("odd'name"), r"['odd\'name']");
}

#[test]
fn metadata_becomes_typed_tables() {
    let body = json(
        r#"{
            "tables": [{
                "name": "AppTraces",
                "columns": [
                    {"name": "TimeGenerated", "type": "datetime"},
                    {"name": "Properties", "type": "dynamic"},
                    {"name": "Message", "type": "string"}
                ]
            }]
        }"#,
    );

    let tables = tables_of(&body);
    assert_eq!(tables.len(), 1);
    let column = |name: &str| {
        tables[0]
            .columns
            .iter()
            .find(|c| c.name == name)
            .unwrap_or_else(|| panic!("no column {name}"))
    };
    assert_eq!(column("TimeGenerated").kind, "datetime");
    assert!(column("Properties").is_dynamic());
    assert!(!column("Message").is_dynamic());
}

#[test]
fn failures_explain_the_remedy_not_just_the_code() {
    let denied =
        r#"{"error":{"code":"InsufficientAccessError","message":"does not have access"}}"#;
    let text = describe_failure(403, denied, None);
    assert!(text.contains("Log Analytics Reader"), "got: {text}");

    let throttled = describe_failure(429, "{}", Some("42"));
    assert!(throttled.contains("42"), "got: {throttled}");
}

#[test]
fn the_innermost_error_message_wins() {
    let error = json(
        r#"{
            "code": "BadArgumentError",
            "message": "outer",
            "innererror": {
                "code": "SyntaxError",
                "message": "the innermost and only useful message"
            }
        }"#,
    );
    assert_eq!(
        api_error_message(&error),
        "the innermost and only useful message"
    );
}

#[test]
fn requests_are_addressed_by_workspace() {
    assert_eq!(
        query_url("ws"),
        "https://api.loganalytics.azure.com/v1/workspaces/ws/query"
    );
    assert_eq!(
        metadata_url("ws"),
        "https://api.loganalytics.azure.com/v1/workspaces/ws/metadata"
    );
}

#[test]
fn every_range_is_found_by_its_iso_duration() {
    for r in TimeRange::all() {
        assert_eq!(range_of(r.iso()), Some(r));
    }
    assert_eq!(range_of("P2D"), None);
    assert_eq!(TimeRange::default(), TimeRange::LastDay);
    assert_eq!(TimeRange::Last30Days.label(), "Last 30 days");
}

#[test]
fn an_answer_is_its_rows_or_what_went_wrong() {
    let body = r#"{"tables":[{"name":"PrimaryResult","columns":[{"name":"a","type":"int"}],"rows":[[1],[2]]}]}"#;
    let rows = read_answer(200, body, None).expect("rows");
    assert_eq!(rows.len(), 2);
    assert_eq!(
        rows[1].get("a").and_then(|v| v.as_natural()),
        Some(2),
        "numbers are read as numbers"
    );
    let refused = read_answer(403, "{}", None).unwrap_err();
    assert!(refused.contains("access denied"), "got: {refused}");
    let torn = read_answer(200, "{\"tables\":", None).unwrap_err();
    assert!(torn.starts_with("malformed response: "), "got: {torn}");
}

#[test]
fn answers_are_judged_by_what_parsing_gave() {
    let ok = Ok(json(r#"{"tables":[]}"#));
    assert_eq!(answer_from(200, "", ok, None), Ok(Vec::new()));
    let failed = answer_from(200, "", Err("torn".to_string()), None);
    assert_eq!(failed, Err("malformed response: torn".to_string()));
    let refused = answer_from(
        200,
        "",
        Ok(json(r#"{"error":{"message":"partial failure"}}"#)),
        None,
    );
    assert_eq!(refused, Err("partial failure".to_string()));
    let meta = metadata_from(200, "", Err("torn".to_string()));
    assert_eq!(meta.unwrap_err(), "malformed metadata: torn");
    let tables = read_metadata(200, r#"{"tables":[{"name":"T","columns":[]}]}"#).expect("tables");
    assert_eq!(tables.len(), 1);
    assert_eq!(tables[0].name, "T");
    assert!(read_metadata(500, "boom").is_err());
}

#[test]
fn no_more_rows_are_kept_than_the_ceiling() {
    let mut rows = String::new();
    for i in 0..MAX_ROWS + 3 {
        if i > 0 {
            rows.push(',');
        }
        rows.push_str("[1]");
    }
    let body = format!(
        r#"{{"tables":[{{"name":"PrimaryResult","columns":[{{"name":"a","type":"int"}}],"rows":[{rows}]}}]}}"#
    );
    assert_eq!(rows_of(&json(&body)).len(), MAX_ROWS + 3);
    assert_eq!(read_answer(200, &body, None).expect("rows").len(), MAX_ROWS);
}

#[test]
fn dynamic_text_is_opened_only_when_it_parses_to_a_structure() {
    assert_eq!(unwrap_dynamic(&text("[1]")), json("[1]"));
    assert_eq!(unwrap_dynamic(&text("plain")), text("plain"));
    assert_eq!(unwrap_dynamic(&Json::Bool(true)), Json::Bool(true));
    assert_eq!(
        dynamic_from(&text("{\"a\":1}"), Err("no".to_string())),
        text("{\"a\":1}")
    );
}

#[test]
fn failures_name_their_code_and_detail() {
    let bad = failure_from(
        400,
        "",
        &Ok(json(r#"{"error":{"message":"syntax error near x"}}"#)),
        None,
    );
    assert_eq!(bad, "the workspace rejected the query: syntax error near x");
    assert_eq!(
        describe_failure(401, " expired ", None),
        "not authenticated (expired) — try `az login` again"
    );
    assert_eq!(
        describe_failure(404, "{}", None),
        "workspace not found ({}) — check the workspace id"
    );
    assert_eq!(
        describe_failure(429, "slow down", None),
        "throttled by Azure (slow down)"
    );
    assert_eq!(
        describe_failure(504, "", None),
        "the query timed out — narrow the time range and try again"
    );
    assert_eq!(
        describe_failure(500, "plain failure", None),
        "query failed (500): plain failure"
    );
    let long = "x".repeat(MAX_DETAIL + 50);
    assert_eq!(
        describe_failure(500, &long, None),
        format!("query failed (500): {}", "x".repeat(MAX_DETAIL))
    );
}

#[test]
fn literals_keep_every_character() {
    assert_eq!(kql_string("tab\there"), r#""tab\there""#);
    assert_eq!(kql_string("→"), r#""→""#);
}

#[test]
fn control_characters_never_stand_raw_in_a_literal() {
    assert_eq!(kql_string("a\u{0}b\u{1f}"), r#""ab""#);
    assert_eq!(kql_string("a\u{7f}b"), r#""ab""#);
    assert_eq!(kql_string("\u{80}a\u{9f}\u{a0}"), "\"a\u{a0}\"");
    assert!(!let_literal("v", "a\u{7f}b").contains('\u{7f}'));
}
