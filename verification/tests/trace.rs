use ais_analytics::clock::{epoch_to_millis, format_gap, format_time, parse_time, time_from};
use ais_analytics::json::{parse, Json};
use ais_analytics::keys::{Binding, KeyCandidate};
use ais_analytics::lanes::{
    assemble, choose_trace, needs_fragment, relane, sort_lanes, Lane, LaneState, Trace,
};
use ais_analytics::loganalytics::TimeRange;
use ais_analytics::order::TextSet;
use ais_analytics::schema::SHARE_ONE;
use ais_analytics::trace::{
    absorb_suggestions, bound_bindings, build_block, finish_suggestions, is_error, lookup,
    lookup_entry, predicate, scalar_text, suggest_queries, suggest_query, trace_queries,
    trace_query, truncate, Block, ErrorRule, TraceSpec, MAX_SUGGESTIONS,
};

fn json(text: &str) -> Json {
    parse(text).expect("valid JSON")
}

fn binding(table: &str, field: &str, kind: &str) -> Binding {
    Binding {
        table: table.into(),
        field: field.into(),
        kind: kind.into(),
        seen_in: 10,
        sampled_rows: 10,
        distinct: 10,
    }
}

#[test]
fn a_trace_is_one_union_with_a_branch_per_table() {
    let a = binding("AppRequests", "OperationId", "string");
    let b = binding("MyApp_CL", "job_ref_g", "string");
    let kql = trace_query(&vec![a, b], "abc-123", false);

    assert!(kql.starts_with(r#"let v = "abc-123";"#), "got: {kql}");
    assert!(kql.contains("['AppRequests']"));
    assert!(kql.contains("['MyApp_CL']"));
    // Each branch filters on its own column, which is the whole reason a
    // union is usable here at all.
    assert!(kql.contains("['OperationId'] == v"));
    assert!(kql.contains("['job_ref_g'] == v"));
    // One retired table must not fail the whole trace.
    assert!(kql.contains("isfuzzy=true"));
    // Rows must carry their lane back.
    assert!(kql.contains(r#"__ais_lane = "AppRequests""#));
}

/// KQL is typed and the user typed characters, so anything that isn't a
/// declared string has to be coerced before comparison.
#[test]
fn non_string_columns_are_coerced_before_comparison() {
    assert_eq!(predicate("OperationId", "string", false), "['OperationId'] == v");
    assert_eq!(
        predicate("RequestId", "guid", false),
        "tostring(['RequestId']) == v"
    );
    assert_eq!(
        predicate("ResultCode", "int", false),
        "tostring(['ResultCode']) == v"
    );
    // Paths inside a dynamic column have no declared type at all.
    assert_eq!(
        predicate("Properties.correlationId", "", false),
        "tostring(['Properties']['correlationId']) == v"
    );
}

#[test]
fn fragment_search_falls_back_to_a_substring_scan() {
    assert_eq!(predicate("OperationId", "string", true), "['OperationId'] contains v");
}

/// A pasted value that tries to close the literal and append its own
/// operators stays inside the string.
#[test]
fn a_hostile_value_cannot_escape_the_query() {
    let a = binding("AppRequests", "OperationId", "string");
    let kql = trace_query(&vec![a], r#"x" | project 1 //"#, false);
    assert!(
        kql.starts_with(r#"let v = "x\" | project 1 //";"#),
        "the value must stay escaped inside the literal, got: {kql}"
    );
    // Exactly one statement terminator: the one we wrote.
    assert_eq!(kql.matches(';').count(), 1);
}

#[test]
fn suggestions_ask_for_distinct_values_not_rows() {
    let a = binding("AppRequests", "OperationId", "string");
    let kql = suggest_query(&vec![a], "abc");
    assert!(kql.contains("distinct Value"), "got: {kql}");
    assert!(kql.contains("contains v"));
    assert!(kql.contains("take 25"));
}

#[test]
fn lanes_read_as_the_path_the_data_took() {
    let lane = |name: &str, state: LaneState, at: Option<i64>| Lane {
        name: name.into(),
        detail: None,
        blocks: at
            .map(|at| {
                vec![Block {
                    id: name.into(),
                    label: name.into(),
                    at: Some(at),
                    at_text: String::new(),
                    facts: vec![],
                    table: name.into(),
                    key_value: "v".into(),
                    doc: json("{}"),
                }]
            })
            .unwrap_or_default(),
        state,
        error: None,
    };

    let mut lanes = vec![
        lane("off", LaneState::OffPath, None),
        lane("late", LaneState::Reached, Some(200)),
        lane("waiting", LaneState::Awaiting, None),
        lane("early", LaneState::Reached, Some(100)),
    ];
    sort_lanes(&mut lanes);
    let order: Vec<&str> = lanes.iter().map(|l| l.name.as_str()).collect();
    assert_eq!(order, vec!["early", "late", "waiting", "off"]);
}

fn staged(id: &str, stage: &str, table: &str) -> Block {
    Block {
        id: id.into(),
        label: stage.into(),
        at: Some(1),
        at_text: String::new(),
        facts: vec![],
        table: table.into(),
        key_value: "v".into(),
        doc: json(&format!("{{\"Stage\": \"{stage}\"}}")),
    }
}

fn three_lanes() -> Trace {
    Trace {
        value: "v".into(),
        key_label: "OperationId".into(),
        blocks_found: 2,
        span: None,
        partial: false,
        matches: vec![],
        lanes: vec![
            Lane {
                name: "AppRequests".into(),
                detail: None,
                blocks: vec![staged("1", "Validate", "AppRequests")],
                state: LaneState::Reached,
                error: None,
            },
            Lane {
                name: "MyApp_CL".into(),
                detail: None,
                blocks: vec![staged("2", "Invoice", "MyApp_CL")],
                state: LaneState::Reached,
                error: None,
            },
            Lane {
                name: "Broken_CL".into(),
                detail: None,
                blocks: vec![],
                state: LaneState::Failed(0),
                error: Some("denied".into()),
            },
        ],
    }
}

/// Regrouping is a pure transform of rows already fetched — switching
/// axis must never need another query.
#[test]
fn relane_regroups_without_losing_rows_or_failures() {
    let base = three_lanes();

    let relaned = relane(
        &base,
        "stage",
        &vec!["Validate".into(), "Invoice".into(), "Archive".into()],
    );
    let names: Vec<&str> = relaned.lanes.iter().map(|l| l.name.as_str()).collect();
    assert!(names.contains(&"Validate"));
    assert!(names.contains(&"Invoice"));
    // A stage the value never reached still has to appear, or its
    // absence says nothing.
    assert!(names.contains(&"Archive"));
    // A failure must not be folded into "nothing here".
    assert!(
        relaned.lanes.iter().any(|l| l.state == LaneState::Failed(0)),
        "a failed lane must survive regrouping"
    );
    // Empty axis is the identity, so the choice is reversible.
    assert_eq!(relane(&base, "", &vec![]).lanes.len(), base.lanes.len());
}

#[test]
fn error_rules_match_case_insensitively_across_types() {
    let rules = vec![ErrorRule {
        field: "resultcode".into(),
        display: "ResultCode".into(),
        value: "500".into(),
    }];
    assert!(is_error(&json(r#"{"ResultCode": 500}"#), &rules));
    assert!(is_error(&json(r#"{"resultcode": "500"}"#), &rules));
    assert!(!is_error(&json(r#"{"ResultCode": 200}"#), &rules));
    assert_eq!(rules[0].label(), "ResultCode = 500");
}

#[test]
fn nested_paths_resolve_case_insensitively() {
    let doc = json(r#"{"Properties": {"CorrelationId": "abc"}}"#);
    assert_eq!(
        lookup(&doc, "properties.correlationid").and_then(scalar_text),
        Some("abc".to_string())
    );
    assert!(lookup(&doc, "properties.missing").is_none());
    assert!(lookup(&doc, "").is_none());
}

#[test]
fn timestamps_parse_from_every_shape_log_analytics_returns() {
    // The wire format for a datetime column.
    assert_eq!(
        parse_time(&json(r#""2026-01-04T10:00:00Z""#)),
        Some(1_767_520_800_000)
    );
    assert!(parse_time(&json(r#""2026-01-04T10:00:00.123Z""#)).is_some());
    assert!(parse_time(&json(r#""2026-01-04 10:00:00""#)).is_some());
    assert!(parse_time(&json("1767520800")).is_some());
    assert!(parse_time(&json("1767520800000")).is_some());
    // A small integer is a count, not a date.
    assert_eq!(parse_time(&json("42")), None);
    assert_eq!(parse_time(&json(r#""not a time""#)), None);
}

#[test]
fn gaps_read_in_sensible_units() {
    assert_eq!(format_gap(250), "+250ms");
    assert_eq!(format_gap(1_500), "+1.5s");
    assert_eq!(format_gap(90_000), "+1.5min");
    assert_eq!(format_gap(5_400_000), "+1.5h");
}

fn key(id_shaped: bool, bindings: Vec<Binding>) -> KeyCandidate {
    KeyCandidate {
        id: "k".into(),
        label: "OperationId".into(),
        bindings,
        missing: vec![],
        shared_values: 0,
        cross_named: false,
        id_shaped,
        well_known: id_shaped,
        avg_fill: SHARE_ONE,
        avg_distinct_ratio: SHARE_ONE,
        score: SHARE_ONE as i128,
        evidence: vec![],
    }
}

#[test]
fn cards_prefer_chosen_facts_then_fill_from_whatever_is_short() {
    let spec = TraceSpec {
        key: key(true, vec![]),
        value: "abc".into(),
        time_field: "timegenerated".into(),
        label_field: "message".into(),
        fact_fields: vec!["severitylevel".into()],
        range: TimeRange::LastDay,
    };
    let doc = json(
        r#"{
            "TimeGenerated": "2026-01-04T10:00:00Z",
            "Message": "started",
            "SeverityLevel": "Information",
            "OperationId": "abc",
            "TenantId": "should-not-show",
            "__ais_lane": "AppTraces",
            "Extra": "short"
        }"#,
    );

    let block = build_block(&doc, &spec, "AppTraces", "OperationId", "AppTraces#0");
    assert_eq!(block.label, "started");
    assert_eq!(block.key_value, "abc");
    assert!(block.at.is_some());

    let names: Vec<&str> = block.facts.iter().map(|(n, _)| n.as_str()).collect();
    // Chosen facts come first, spelled as the workspace spells them
    // rather than as the lowercased id they were matched by.
    assert_eq!(names.first(), Some(&"SeverityLevel"), "chosen facts come first");
    // The injected lane column and workspace boilerplate are not facts.
    assert!(!names.contains(&"__ais_lane"));
    assert!(!names.contains(&"TenantId"));
    // The key, time and label are already on the card in their own right.
    assert!(!names.contains(&"OperationId"));
    assert!(!names.contains(&"Message"));
}

#[test]
fn a_card_without_a_label_column_falls_back_to_its_table() {
    let spec = TraceSpec {
        key: key(false, vec![]),
        value: "abc".into(),
        time_field: String::new(),
        label_field: String::new(),
        fact_fields: vec![],
        range: TimeRange::LastHour,
    };
    let block = build_block(
        &json(r#"{"OperationId": "abc"}"#),
        &spec,
        "MyApp_CL",
        "OperationId",
        "x",
    );
    assert_eq!(block.label, "MyApp_CL");
    assert_eq!(block.at_text, "");
}

fn spec_on(bindings: Vec<Binding>) -> TraceSpec {
    TraceSpec {
        key: key(true, bindings),
        value: "abc".into(),
        time_field: "timegenerated".into(),
        label_field: String::new(),
        fact_fields: vec![],
        range: TimeRange::LastDay,
    }
}

#[test]
fn only_tables_that_carry_the_key_are_asked() {
    let spec = spec_on(vec![
        binding("A_CL", "id", "string"),
        binding("B_CL", "ref", "guid"),
    ]);
    let tables: Vec<String> = vec!["A_CL".into(), "Z_CL".into(), "B_CL".into()];
    let bound = bound_bindings(&tables, &spec.key);
    assert_eq!(bound.len(), 2);
    let queries = trace_queries(&tables, &spec, false);
    assert_eq!(queries.len(), 1);
    assert_eq!(queries[0], trace_query(&bound, "abc", false));
    assert!(!queries[0].contains("Z_CL"));
}

#[test]
fn every_table_gets_a_lane_whatever_was_answered() {
    let spec = spec_on(vec![
        binding("A_CL", "id", "string"),
        binding("B_CL", "ref", "string"),
    ]);
    let tables: Vec<String> = vec!["A_CL".into(), "Z_CL".into(), "B_CL".into()];
    let rows = vec![
        json(r#"{"__ais_lane":"A_CL","id":"abc","TimeGenerated":"2026-01-04T10:00:01Z"}"#),
        json(r#"{"__ais_lane":"A_CL","id":"abc","TimeGenerated":"2026-01-04T10:00:00Z"}"#),
    ];
    let trace = assemble(&tables, &spec, false, &vec![Ok(rows)]);
    assert_eq!(trace.lanes.len(), 3);
    assert_eq!(trace.blocks_found, 2);
    assert_eq!(trace.reached(), 1);
    assert_eq!(trace.awaiting(), 1);
    assert_eq!(trace.span, Some((1_767_520_800_000, 1_767_520_801_000)));
    // Reached first, then where it was expected, then where it was not.
    let states: Vec<LaneState> = trace.lanes.iter().map(|l| l.state).collect();
    assert_eq!(
        states,
        vec![LaneState::Reached, LaneState::Awaiting, LaneState::OffPath]
    );
    // Blocks stand by time.
    assert_eq!(trace.lanes[0].first_at(), trace.lanes[0].blocks[0].at);
    let id = trace.lanes[0].blocks[1].id.clone();
    let (lane, block) = trace.find_block(&id).expect("the block");
    assert_eq!(lane.name, "A_CL");
    assert_eq!(block.id, id);
    assert!(trace.find_block("nosuch").is_none());

    let failed = assemble(&tables, &spec, false, &vec![Err("denied".to_string())]);
    assert!(failed
        .lanes
        .iter()
        .filter(|l| l.name != "Z_CL")
        .all(|l| matches!(l.state, LaneState::Failed(_)) && l.error.as_deref() == Some("denied")));
}

#[test]
fn a_fragment_is_tried_only_when_nothing_was_found() {
    let found = three_lanes();
    assert!(!needs_fragment(&found, "v"));
    let nothing = Trace {
        blocks_found: 0,
        ..three_lanes()
    };
    assert!(needs_fragment(&nothing, " v "));
    assert!(!needs_fragment(&nothing, "   "));
    let partial = Trace {
        partial: true,
        ..three_lanes()
    };
    assert!(choose_trace(nothing, partial).partial);
    let exact = Trace {
        blocks_found: 0,
        ..three_lanes()
    };
    let empty = Trace {
        blocks_found: 0,
        partial: true,
        ..three_lanes()
    };
    assert!(!choose_trace(exact, empty).partial);
}

#[test]
fn regrouping_keeps_every_failure_whatever_its_code() {
    let mut base = three_lanes();
    base.lanes[2].state = LaneState::Failed(7);
    let relaned = relane(&base, "stage", &vec![]);
    assert!(relaned.lanes.iter().any(|l| l.state == LaneState::Failed(7)));
    let rows: usize = relaned.lanes.iter().map(|l| l.blocks.len()).sum();
    assert_eq!(rows, 2);
}

#[test]
fn more_rules_only_mark_more_rows() {
    let rule = |field: &str, value: &str| ErrorRule {
        field: field.into(),
        display: String::new(),
        value: value.into(),
    };
    let doc = json(r#"{"a": "1"}"#);
    assert!(!is_error(&doc, &vec![]));
    assert!(is_error(&doc, &vec![rule("a", "1")]));
    assert!(is_error(&doc, &vec![rule("b", "2"), rule("a", "1")]));
    // Without a name of its own a rule goes by its column.
    assert_eq!(rule("properties.code", "1").label(), "code = 1");
}

#[test]
fn paths_come_back_as_the_row_spells_them() {
    let doc = json(r#"{"Properties": {"CorrelationId": "abc"}, "Empty": ""}"#);
    let (name, v) = lookup_entry(&doc, "properties.correlationid").expect("a value");
    assert_eq!(name, "CorrelationId");
    assert_eq!(v, &Json::Text("abc".to_string()));
    assert_eq!(lookup(&doc, "empty").and_then(scalar_text), None);
    assert_eq!(scalar_text(&json("[1]")), None);
    assert_eq!(scalar_text(&json("true")), Some("true".to_string()));
}

#[test]
fn epochs_are_told_from_counts() {
    assert_eq!(epoch_to_millis(1_767_520_800), Some(1_767_520_800_000));
    assert_eq!(epoch_to_millis(1_767_520_800_000), Some(1_767_520_800_000));
    assert_eq!(epoch_to_millis(999_999_999), None);
    assert_eq!(epoch_to_millis(-5), None);
    // Text that spells an epoch is one.
    assert_eq!(
        parse_time(&json(r#""1767520800""#)),
        Some(1_767_520_800_000)
    );
    assert_eq!(
        parse_time(&json(r#""2026-01-04T10:00:00.250""#)),
        Some(1_767_520_800_250)
    );
    assert_eq!(
        parse_time(&json(r#""2026-01-04T12:00:00+02:00""#)),
        Some(1_767_520_800_000)
    );
    assert_eq!(time_from("1767520800", &vec![None, None, None]), Some(1_767_520_800_000));
    assert_eq!(time_from("x", &vec![None, Some(5), Some(6)]), Some(5));
}

#[test]
fn instants_are_shown_to_the_millisecond() {
    assert_eq!(format_time(1_767_520_800_123), "01-04 10:00:00.123");
    assert_eq!(format_time(i64::MAX), "");
}

#[test]
fn gaps_round_as_they_are_printed() {
    assert_eq!(format_gap(0), "+0ms");
    assert_eq!(format_gap(999), "+999ms");
    assert_eq!(format_gap(1_000), "+1.0s");
    assert_eq!(format_gap(59_999), "+60.0s");
    assert_eq!(format_gap(60_000), "+1.0min");
    assert_eq!(format_gap(3_600_000), "+1.0h");
    // Halves go where the nearest double lies.
    assert_eq!(format_gap(1_250), "+1.2s");
    assert_eq!(format_gap(1_350), "+1.4s");
}

/// The whole-number arithmetic prints what dividing doubles would.
#[test]
fn gaps_agree_with_division_of_doubles() {
    let with_doubles = |millis: i64| -> String {
        let s = millis as f64 / 1000.0;
        if millis < 1000 {
            format!("+{millis}ms")
        } else if s < 60.0 {
            format!("+{s:.1}s")
        } else if s < 3600.0 {
            format!("+{:.1}min", s / 60.0)
        } else if s < 86_400.0 {
            format!("+{:.1}h", s / 3600.0)
        } else {
            format!("+{:.1}d", s / 86_400.0)
        }
    };
    for millis in (0..200_000).step_by(7) {
        assert_eq!(format_gap(millis), with_doubles(millis), "{millis}");
    }
    for millis in (0..700_000_000_i64).step_by(99_991) {
        assert_eq!(format_gap(millis), with_doubles(millis), "{millis}");
    }
    // Where the last digit is a tie, and where the double is coarse.
    for millis in [
        1_050, 1_150, 1_250, 1_350, 1_450, 2_950, 59_950, 63_000, 69_000, 3_597_000, 180_000_000,
        129_600_000, 90_720_000, -1, -5_000, i64::MIN, i64::MAX, 9_007_199_254_740_993,
        4_611_686_018_427_387_905,
    ] {
        assert_eq!(format_gap(millis), with_doubles(millis), "{millis}");
    }
}

#[test]
fn suggestions_are_collected_until_there_are_enough() {
    let spec = spec_on(vec![binding("A_CL", "id", "string")]);
    let tables: Vec<String> = vec!["A_CL".into()];
    assert!(suggest_queries(&tables, &spec.key, "abc").is_empty());
    let queries = suggest_queries(&tables, &spec.key, " abcd ");
    assert_eq!(queries.len(), 1);
    assert!(queries[0].starts_with(r#"let v = "abcd";"#), "got: {}", queries[0]);

    let mut found = TextSet::new();
    assert!(absorb_suggestions(&mut found, &Err("denied".to_string())));
    assert!(found.is_empty());
    let few = vec![json(r#"{"Value":"b"}"#), json(r#"{"Value":"a"}"#), json(r#"{"Value":"a"}"#)];
    assert!(absorb_suggestions(&mut found, &Ok(few)));
    assert_eq!(finish_suggestions(&found), vec!["a", "b"]);
    let many: Vec<Json> = (0..MAX_SUGGESTIONS + 5)
        .map(|i| json(&format!("{{\"Value\":\"v{i:03}\"}}")))
        .collect();
    assert!(!absorb_suggestions(&mut found, &Ok(many)));
    assert_eq!(finish_suggestions(&found).len(), MAX_SUGGESTIONS);
}

#[test]
fn long_text_is_cut_with_a_mark() {
    assert_eq!(truncate("short", 28), "short");
    assert_eq!(truncate("abcdef", 4), "abc…");
    assert_eq!(truncate("→→→→→", 3), "→→…");
    assert_eq!(truncate("abc", 0), "…");
}
