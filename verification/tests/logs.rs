use ais_analytics::discover::analyze;
use ais_analytics::json::{parse, Json};
use ais_analytics::logs::{
    build, entries, has_column, load_query, propose, query, rows_of, severities, text_of, Filter,
    Spec,
};
use ais_analytics::order::TextSet;
use ais_analytics::schema::{FieldInfo, TableSchema};

fn json(text: &str) -> Json {
    parse(text).expect("valid JSON")
}

fn spec() -> Spec {
    Spec {
        table: "AppTraces".into(),
        time_field: "TimeGenerated".into(),
        message_field: "Message".into(),
        severity_field: "SeverityLevel".into(),
        key_field: "OperationId".into(),
    }
}

/// A line that cannot be followed is a line that was seen already.
#[test]
fn every_line_carries_the_value_to_follow() {
    let kql = query(&spec(), &Filter::default());
    assert!(
        kql.contains("Key = tostring(['OperationId'])"),
        "got: {kql}"
    );
}

/// Both filters are optional and compose into the same query.
#[test]
fn filters_are_optional_and_stack() {
    let none = query(&spec(), &Filter::default());
    assert!(!none.contains("| where"), "got: {none}");

    let both = query(
        &spec(),
        &Filter {
            text: "timed out".into(),
            severity: "Error".into(),
        },
    );
    assert!(both.contains(r#"contains "timed out""#), "got: {both}");
    assert!(both.contains(r#"=~ "Error""#), "got: {both}");
}

/// Typing part of a token means the substring. `has` would silently drop
/// every partial word the user tried.
#[test]
fn a_text_filter_matches_substrings_not_whole_words() {
    let kql = query(
        &spec(),
        &Filter {
            text: "counterpart".into(),
            ..Filter::default()
        },
    );
    assert!(kql.contains("contains"), "got: {kql}");
    assert!(
        !kql.contains("| where tostring(['Message']) has "),
        "got: {kql}"
    );
}

/// A workspace with no severity column still gets its log lines.
#[test]
fn a_missing_severity_leaves_the_column_blank_rather_than_failing() {
    let bare = Spec {
        severity_field: String::new(),
        ..spec()
    };
    let kql = query(&bare, &Filter::default());
    assert!(kql.contains(r#"Severity = """#), "got: {kql}");
    assert!(kql.contains("Message = tostring"), "got: {kql}");
}

/// A severity filter with nothing to filter on must not reach the query.
#[test]
fn a_severity_filter_is_dropped_when_the_table_has_no_severity() {
    let bare = Spec {
        severity_field: String::new(),
        ..spec()
    };
    let kql = query(
        &bare,
        &Filter {
            severity: "Error".into(),
            ..Filter::default()
        },
    );
    assert!(!kql.contains("=~"), "got: {kql}");
}

/// Search text is user input and reaches the query as a literal.
#[test]
fn a_hostile_search_cannot_escape_the_query() {
    let kql = query(
        &spec(),
        &Filter {
            text: r#"x" | take 1 //"#.into(),
            ..Filter::default()
        },
    );
    assert!(kql.contains(r#""x\" | take 1 //""#), "got: {kql}");
}

#[test]
fn rows_become_entries() {
    let e = build(&json(
        r#"{
            "At": "2026-09-08T11:00:00Z",
            "Severity": "Error",
            "Message": "Connection timed out",
            "Key": "82cd9fa7"
        }"#,
    ));
    assert_eq!(e.severity, "Error");
    assert_eq!(e.key_value, "82cd9fa7");
    assert!(e.at.is_some());
}

fn field(name: &str, values: &[&str]) -> FieldInfo {
    let mut set = TextSet::new();
    for v in values {
        set.insert(v.to_string());
    }
    FieldInfo {
        name: name.into(),
        kind: "string".into(),
        types: vec!["string".into()],
        seen_in: values.len(),
        distinct: set.len(),
        values: set,
    }
}

fn log_tables() -> Vec<TableSchema> {
    let ids = ["9f1c2d3e-4a5b-6c7d", "1a2b3c4d-5e6f-7a8b", "2b3c4d5e-6f7a-8b9c"];
    vec![TableSchema {
        table: "AppTraces".into(),
        sampled_rows: 3,
        rows_in_range: 30,
        fields: vec![
            field("OperationId", &ids),
            field(
                "Message",
                &[
                    "the order was received and is now being checked",
                    "the order could not be matched against stock",
                    "payment for the order timed out after a minute",
                ],
            ),
            field("SeverityLevel", &["Error", "Information", "Error"]),
        ],
    }]
}

#[test]
fn a_log_spec_is_proposed_where_the_key_meets_a_message() {
    let schemas = log_tables();
    let insights = analyze(&schemas);
    let key = insights
        .keys
        .iter()
        .find(|k| k.label == "OperationId")
        .expect("a key was found");
    let proposed = propose(&schemas, &insights, key, "TimeGenerated");
    assert!(proposed.is_usable());
    assert_eq!(proposed.table, "AppTraces");
    assert_eq!(proposed.message_field, "Message");
    assert_eq!(proposed.severity_field, "SeverityLevel");
    assert_eq!(proposed.key_field, "OperationId");
    assert_eq!(proposed.time_field, "TimeGenerated");
    assert_eq!(severities(&schemas, &proposed), vec!["Error", "Information"]);
}

#[test]
fn without_a_severity_column_there_is_nothing_to_pick() {
    let bare = Spec {
        severity_field: String::new(),
        ..spec()
    };
    assert!(severities(&log_tables(), &bare).is_empty());
}

#[test]
fn an_unusable_log_spec_asks_nothing() {
    let bare = Spec {
        table: String::new(),
        ..spec()
    };
    assert_eq!(load_query(&bare, &Filter::default()), None);
    assert_eq!(
        load_query(&spec(), &Filter::default()),
        Some(query(&spec(), &Filter::default()))
    );
}

#[test]
fn log_columns_are_matched_without_regard_to_case() {
    let schemas = log_tables();
    assert!(has_column(&schemas, "AppTraces", "severitylevel"));
    assert!(!has_column(&schemas, "AppTraces", "nosuch"));
    assert!(!has_column(&schemas, "Other", "Message"));
    assert_eq!(rows_of(&schemas, "AppTraces"), 30);
    assert_eq!(rows_of(&schemas, "Other"), 0);
}

#[test]
fn missing_cells_read_as_empty() {
    let row = json(r#"{"At": 5, "Severity": 3, "Flag": true}"#);
    assert_eq!(text_of(&row, "Severity"), "3");
    assert_eq!(text_of(&row, "Message"), "");
    assert_eq!(text_of(&row, "Flag"), "true");
    let list = entries(&vec![json("{}"), row]);
    assert_eq!(list.len(), 2);
    assert_eq!(list[0].at, None);
    assert_eq!(list[0].message, "");
    assert_eq!(list[1].severity, "3");
}

#[test]
fn any_message_column_that_meets_the_key_is_found() {
    let mut schemas = log_tables();
    schemas[0].fields[1].name = "BodyText".into();
    for name in ["Jobs_CL", "Runs_CL"] {
        schemas.push(TableSchema {
            table: name.into(),
            sampled_rows: 1,
            rows_in_range: 900,
            fields: vec![field("Message", &["nothing to follow here"])],
        });
    }
    let insights = analyze(&schemas);
    assert_eq!(insights.messages[0].label, "Message");
    let key = insights
        .keys
        .iter()
        .find(|k| k.label == "OperationId")
        .expect("a key was found");
    let proposed = propose(&schemas, &insights, key, "TimeGenerated");
    assert_eq!(proposed.table, "AppTraces");
    assert_eq!(proposed.message_field, "BodyText");
}
