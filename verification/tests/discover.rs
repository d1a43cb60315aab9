use ais_analytics::discover::{
    analyze, candidates_for, field_values, id_shaped, is_system, is_well_known,
    name_suggests_identifier, scalar_fields, time_shaped, unit_of, Insights, Role,
    INGESTION_TIME, LINK_MAX_FANOUT,
};
use ais_analytics::dsu::Dsu;
use ais_analytics::keys::key_candidates;
use ais_analytics::linking::{collect_nodes, group_nodes, index_values};
use ais_analytics::order::TextSet;
use ais_analytics::schema::{FieldInfo, TableSchema};

fn set(values: &[&str]) -> TextSet {
    let mut out = TextSet::new();
    for v in values {
        out.insert(v.to_string());
    }
    out
}

fn field(name: &str, values: &[&str]) -> FieldInfo {
    let set = set(values);
    FieldInfo {
        name: name.into(),
        kind: String::new(),
        types: vec!["string".into()],
        seen_in: values.len(),
        distinct: set.len(),
        values: set,
    }
}

fn typed(name: &str, kind: &str, values: &[&str]) -> FieldInfo {
    FieldInfo {
        kind: kind.into(),
        ..field(name, values)
    }
}

fn table(name: &str, fields: Vec<FieldInfo>) -> TableSchema {
    let sampled = fields.iter().map(|f| f.seen_in).max().unwrap_or(0);
    TableSchema {
        table: name.into(),
        sampled_rows: sampled,
        rows_in_range: sampled,
        fields,
    }
}

fn uuids() -> Vec<&'static str> {
    vec![
        "9f1c2d3e-4a5b-6c7d-8e9f-0a1b2c3d4e5f",
        "1a2b3c4d-5e6f-7a8b-9c0d-1e2f3a4b5c6d",
        "2b3c4d5e-6f7a-8b9c-0d1e-2f3a4b5c6d7e",
        "3c4d5e6f-7a8b-9c0d-1e2f-3a4b5c6d7e8f",
    ]
}

/// An App Insights table and a custom table naming the same identifier
/// differently are still recognised as one key, purely from the values.
#[test]
fn links_differently_named_columns_by_shared_values() {
    let ids = uuids();
    let schemas = vec![
        table(
            "AppRequests",
            vec![
                field("OperationId", &ids),
                field("Success", &["true", "true", "false", "false"]),
            ],
        ),
        table(
            "MyApp_CL",
            vec![
                field("job_ref_g", &ids),
                field("stage_s", &["created", "paid", "shipped", "paid"]),
            ],
        ),
    ];

    let insights = analyze(&schemas);
    let best = &insights.keys[0];

    assert!(best.cross_named, "expected the group to span both names");
    assert_eq!(best.shared_values, 4);
    assert_eq!(best.bindings.len(), 2);
    assert_eq!(
        best.binding_for("AppRequests").map(|b| b.field.as_str()),
        Some("OperationId")
    );
    assert_eq!(
        best.binding_for("MyApp_CL").map(|b| b.field.as_str()),
        Some("job_ref_g")
    );
}

/// An enum-ish column repeated across tables must not outrank a real
/// identifier just because it is everywhere.
#[test]
fn low_cardinality_columns_rank_below_identifiers() {
    let ids = uuids();
    let schemas = vec![
        table(
            "AppRequests",
            vec![
                field("OperationId", &ids),
                field("Level", &["a", "a", "b", "b"]),
            ],
        ),
        table(
            "AppTraces",
            vec![
                field("OperationId", &ids),
                field("Level", &["a", "b", "b", "a"]),
            ],
        ),
    ];

    let insights = analyze(&schemas);
    let level_rank = insights.keys.iter().position(|c| c.label == "Level");
    assert_eq!(insights.keys[0].label, "OperationId");
    assert!(level_rank.is_some_and(|r| r > 0), "Level should not win");
}

/// Two columns inside one table that happen to share values are related,
/// but they are not a single key.
#[test]
fn does_not_link_columns_within_one_table() {
    let ids = uuids();
    let schemas = vec![table(
        "AppDependencies",
        vec![field("OperationId", &ids), field("ParentId", &ids)],
    )];

    let insights = analyze(&schemas);
    assert!(
        insights.keys.iter().all(|c| c.bindings.len() == 1),
        "same-table columns must stay separate candidates"
    );
}

#[test]
fn paths_inside_dynamic_columns_link_to_declared_columns() {
    let ids = uuids();
    let schemas = vec![
        table("AppRequests", vec![field("OperationId", &ids)]),
        table(
            "AzureDiagnostics",
            vec![field("Properties.OperationId", &ids)],
        ),
    ];

    let insights = analyze(&schemas);
    let best = &insights.keys[0];
    assert_eq!(best.bindings.len(), 2);
    assert_eq!(
        best.binding_for("AzureDiagnostics")
            .map(|b| b.field.as_str()),
        Some("Properties.OperationId")
    );
}

/// The convention prior helps, but a column that demonstrably links must
/// still beat one that merely has the fashionable name.
#[test]
fn proof_of_linking_outranks_a_conventional_name() {
    let ids = uuids();
    let others = [
        "aaaaaaaa-1111-2222-3333-444444444444",
        "bbbbbbbb-1111-2222-3333-444444444444",
        "cccccccc-1111-2222-3333-444444444444",
        "dddddddd-1111-2222-3333-444444444444",
    ];
    let schemas = vec![
        table(
            "MyApp_CL",
            vec![field("job_ref_g", &ids), field("OperationId", &others)],
        ),
        table("Ingest_CL", vec![field("batch_ref_g", &ids)]),
    ];

    let insights = analyze(&schemas);
    assert_eq!(
        insights.keys[0].label, "job_ref_g",
        "a proven link must outrank an unlinked conventional name"
    );
    assert!(insights.keys[0].shared_values > 0);
}

#[test]
fn a_standard_correlation_column_is_recognised_and_said_so() {
    let ids = uuids();
    let schemas = vec![
        table("AppRequests", vec![field("OperationId", &ids)]),
        table("AppTraces", vec![field("OperationId", &ids)]),
    ];
    let best = &analyze(&schemas).keys[0];
    assert!(best.well_known);
    assert!(
        best.evidence
            .iter()
            .any(|e| e.text.contains("standard Azure Monitor")),
        "the prior must be stated, not silently applied"
    );
}

/// Type-suffixed diagnostic columns are the same convention wearing a
/// hat, and should be recognised through the suffix.
#[test]
fn type_suffixed_diagnostic_columns_count_as_well_known() {
    assert!(is_well_known("correlationid_g"));
    assert!(is_well_known("operationid_s"));
    assert!(is_well_known("properties.operationid"));
    assert!(!is_well_known("customerid_g"));
}

/// Declared types make the time role near-free: a datetime column is a
/// time column even when the sample never showed a value.
#[test]
fn declared_datetime_columns_are_time_candidates_without_a_sample() {
    let schemas = vec![table(
        "AppRequests",
        vec![FieldInfo {
            kind: "datetime".into(),
            seen_in: 0,
            distinct: 0,
            values: TextSet::new(),
            ..field("EnqueuedAt", &[])
        }],
    )];
    let insights = analyze(&schemas);
    assert!(
        insights.times.iter().any(|c| c.label == "EnqueuedAt"),
        "a declared datetime needs no evidence to be offered"
    );
}

/// `TimeGenerated` is always right and always present, which is exactly
/// why it must not crowd out the timestamp that describes the step.
#[test]
fn ingestion_time_is_offered_but_never_first() {
    let schemas = vec![
        table(
            "AppRequests",
            vec![
                typed("TimeGenerated", "datetime", &["2026-01-04T10:00:00Z"]),
                typed("EnqueuedAt", "datetime", &["2026-01-04T09:59:00Z"]),
            ],
        ),
        table(
            "AppTraces",
            vec![
                typed("TimeGenerated", "datetime", &["2026-01-04T10:00:01Z"]),
                typed("EnqueuedAt", "datetime", &["2026-01-04T09:59:30Z"]),
            ],
        ),
    ];
    let insights = analyze(&schemas);
    assert_eq!(insights.times[0].label, "EnqueuedAt");
    assert!(insights.times.iter().any(|c| c.id == "timegenerated"));
}

#[test]
fn injected_system_columns_are_never_candidates() {
    let ids = uuids();
    let schemas = vec![
        table(
            "AppRequests",
            vec![field("TenantId", &ids), field("OperationId", &ids)],
        ),
        table(
            "AppTraces",
            vec![field("TenantId", &ids), field("OperationId", &ids)],
        ),
    ];
    let insights = analyze(&schemas);
    assert!(
        insights.keys.iter().all(|c| c.label != "TenantId"),
        "workspace-injected columns must never be offered as keys"
    );
    assert!(scalar_fields(&schemas).iter().all(|f| f.id != "tenantid"));
}

#[test]
fn field_values_unions_across_tables_and_dedupes() {
    let schemas = vec![
        table(
            "AppTraces",
            vec![field("workflowName", &["Validate", "Invoice", "Validate"])],
        ),
        table(
            "MyApp_CL",
            vec![field("WorkflowName", &["Validate", "Archive"])],
        ),
    ];

    assert_eq!(
        field_values(&schemas, "workflowname"),
        vec!["Archive", "Invoice", "Validate"]
    );
    assert!(field_values(&schemas, "").is_empty());
    assert!(field_values(&schemas, "nosuchfield").is_empty());
}

/// The error-rule picker must offer numeric flags, which the ranked role
/// lists filter out as too low-cardinality.
#[test]
fn scalar_fields_includes_numeric_flags_the_role_lists_reject() {
    let numeric = FieldInfo {
        name: "ResultCode".into(),
        kind: "int".into(),
        types: vec!["number".into()],
        seen_in: 20,
        distinct: 2,
        values: set(&["200", "500"]),
    };
    let schemas = vec![table(
        "AppRequests",
        vec![numeric, field("OperationId", &uuids())],
    )];

    let offered = scalar_fields(&schemas);
    let ids: Vec<&str> = offered.iter().map(|f| f.id.as_str()).collect();
    assert!(
        ids.contains(&"resultcode"),
        "numeric columns must be offerable as error flags, got {ids:?}"
    );
    assert_eq!(field_values(&schemas, "resultcode"), vec!["200", "500"]);
}

#[test]
fn short_values_do_not_link_tables() {
    let schemas = vec![
        table("A_CL", vec![field("code", &["1", "2", "3", "4"])]),
        table("B_CL", vec![field("rank", &["1", "2", "3", "4"])]),
    ];

    let insights = analyze(&schemas);
    assert!(
        insights.keys.iter().all(|c| c.bindings.len() == 1),
        "short values are too collision-prone to link on"
    );
}

/// One shared value is coincidence; the threshold exists to require more.
#[test]
fn a_single_shared_value_does_not_link() {
    let schemas = vec![
        table(
            "A_CL",
            vec![field(
                "left",
                &["9f1c2d3e-4a5b-6c7d-8e9f-0a1b2c3d4e5f", "unique-to-a-11111"],
            )],
        ),
        table(
            "B_CL",
            vec![field(
                "right",
                &["9f1c2d3e-4a5b-6c7d-8e9f-0a1b2c3d4e5f", "unique-to-b-22222"],
            )],
        ),
    ];
    let insights = analyze(&schemas);
    assert!(
        insights.keys.iter().all(|c| c.bindings.len() == 1),
        "one shared value is not enough evidence to merge two columns"
    );
}

/// Boilerplate that turns up in dozens of columns is not an identifier,
/// and must not drag the whole workspace into one giant group.
///
/// Each table spells the column differently, so only the shared value
/// could merge them — which is exactly the mechanism under test.
#[test]
fn values_shared_by_many_columns_do_not_link() {
    let boilerplate = "westeurope-prod-cluster-01";
    let schemas: Vec<TableSchema> = (0..LINK_MAX_FANOUT + 5)
        .map(|i| {
            table(
                &format!("T{i}_CL"),
                vec![field(&format!("region_{i}"), &[boilerplate, "x"])],
            )
        })
        .collect();

    let insights = analyze(&schemas);
    assert!(
        insights.keys.iter().all(|c| c.bindings.len() == 1),
        "a value appearing in every table links nothing"
    );
}

/// The same spelling in two tables is taken as the same key without
/// needing value evidence — the other half of the linking rule, and the
/// reason the fan-out cap above cannot be tested with a shared name.
#[test]
fn the_same_column_name_links_tables_on_its_own() {
    let schemas = vec![
        table(
            "A_CL",
            vec![field("job_ref", &["only-in-a-1111", "only-in-a-2222"])],
        ),
        table(
            "B_CL",
            vec![field("job_ref", &["only-in-b-1111", "only-in-b-2222"])],
        ),
    ];
    let best = &analyze(&schemas).keys[0];
    assert_eq!(best.bindings.len(), 2);
    // Named the same, but nothing proves they carry the same ids.
    assert_eq!(best.shared_values, 0);
    assert!(
        best.evidence
            .iter()
            .any(|e| !e.good && e.text.contains("unproven")),
        "an unproven link must say so"
    );
}

#[test]
fn labels_are_detected_and_timestamps_excluded_from_them() {
    let schemas = vec![table(
        "AppTraces",
        vec![
            typed(
                "TimeGenerated",
                "datetime",
                &[
                    "2026-01-04T10:00:00Z",
                    "2026-01-04T10:05:00Z",
                    "2026-01-05T09:00:00Z",
                ],
            ),
            field("SeverityLevel", &["Information", "Warning", "Error"]),
        ],
    )];

    let insights = analyze(&schemas);
    assert!(insights.labels.iter().any(|c| c.label == "SeverityLevel"));
    assert!(
        insights.labels.iter().all(|c| c.label != "TimeGenerated"),
        "a timestamp is not a step label"
    );
}

#[test]
fn nothing_sampled_means_nothing_found() {
    assert_eq!(analyze(&vec![]), Insights::default());
    assert!(key_candidates(&vec![]).is_empty());
}

#[test]
fn every_key_binds_or_misses_each_table() {
    let ids = uuids();
    let schemas = vec![
        table("A_CL", vec![field("OperationId", &ids)]),
        table("B_CL", vec![field("Other", &["aaaaaaaaaa", "bbbbbbbbbb"])]),
    ];
    let insights = analyze(&schemas);
    assert_eq!(insights.tables, vec!["A_CL", "B_CL"]);
    for key in &insights.keys {
        for t in &insights.tables {
            assert_ne!(key.binding_for(t).is_some(), key.missing.contains(t));
        }
    }
}

#[test]
fn linked_columns_end_up_in_one_group() {
    let ids = uuids();
    let schemas = vec![
        table("A_CL", vec![field("one", &ids)]),
        table("B_CL", vec![field("two", &ids)]),
        table("C_CL", vec![field("three", &["zzzzzzzzzz", "yyyyyyyyyy"])]),
    ];
    let nodes = collect_nodes(&schemas);
    assert_eq!(nodes.len(), 3);
    let (values, holders) = index_values(&nodes);
    assert_eq!(values.len(), holders.len());
    let groups = group_nodes(&nodes);
    assert!(groups.contains(&vec![0, 1]), "got {groups:?}");
    assert!(groups.contains(&vec![2]), "got {groups:?}");
}

#[test]
fn joined_sets_have_one_root() {
    let mut dsu = Dsu::new(5);
    dsu.union(0, 1);
    dsu.union(3, 4);
    dsu.union(1, 4);
    assert_eq!(dsu.find(0), dsu.find(3));
    assert_ne!(dsu.find(0), dsu.find(2));
}

#[test]
fn shapes_of_values_and_names_are_recognised() {
    assert!(id_shaped("9f1c2d3e-4a5b-6c7d-8e9f-0a1b2c3d4e5f"));
    assert!(!id_shaped("paid"));
    assert!(time_shaped("2026-01-04T10:00:00Z"));
    assert!(!time_shaped("not a time at all"));
    assert!(name_suggests_identifier("x_correlation_ref"));
    assert!(!name_suggests_identifier("message"));
    assert!(is_system("TenantId"));
    assert!(!is_system("OperationId"));
    assert_eq!(unit_of("DurationMs"), "ms");
    assert_eq!(INGESTION_TIME, "TimeGenerated");
}

#[test]
fn what_qualifies_for_a_role_is_offered_for_it() {
    let schemas = vec![table(
        "AppRequests",
        vec![
            typed("EnqueuedAt", "datetime", &["2026-01-04T10:00:00Z"]),
            FieldInfo {
                types: vec!["number".into()],
                ..typed("DurationMs", "real", &["12", "15"])
            },
        ],
    )];
    let insights = analyze(&schemas);
    let labels = |list: &Vec<ais_analytics::discover::RoleCandidate>| -> Vec<String> {
        list.iter().map(|c| c.label.clone()).collect()
    };
    assert_eq!(labels(&candidates_for(Role::Time, &schemas)), labels(&insights.times));
    assert_eq!(labels(&insights.durations), vec!["DurationMs"]);
}

/// Two spellings that differ only in case are one name: without a shared
/// value nothing is claimed of the values.
#[test]
fn names_that_differ_in_case_claim_no_shared_values() {
    let claim = |values: [&[&str]; 2]| {
        let insights = analyze(&vec![
            table("A_CL", vec![field("JobRef", values[0])]),
            table("B_CL", vec![field("jobref", values[1])]),
        ]);
        assert_eq!(insights.keys.len(), 1);
        let key = &insights.keys[0];
        assert_eq!(key.bindings.len(), 2);
        assert!(!key.cross_named, "the name connects it");
        let said = key
            .evidence
            .iter()
            .any(|e| e.text.contains("same values under different names"));
        (key.shared_values, said)
    };
    let a: &[&str] = &["only-in-a-1111", "only-in-a-2222"];
    let b: &[&str] = &["only-in-b-1111", "only-in-b-2222"];
    assert_eq!(claim([a, b]), (0, false));
    assert_eq!(claim([a, a]), (2, true));
}

/// Every column of a spelling joins the key, also where one table has two.
#[test]
fn every_column_of_one_spelling_is_one_key() {
    let schemas = vec![
        table(
            "A_CL",
            vec![
                field("JobRef", &["first-of-a-1111"]),
                field("jobref", &["second-of-a-2222"]),
            ],
        ),
        table("B_CL", vec![field("JOBREF", &["only-of-b-3333"])]),
    ];
    assert_eq!(group_nodes(&collect_nodes(&schemas)).len(), 1);
    // In one table alone they stay apart.
    assert_eq!(group_nodes(&collect_nodes(&schemas[..1].to_vec())).len(), 2);
}

/// Values are looked at for times only where nothing declares the column.
#[test]
fn a_column_declared_as_text_is_no_time() {
    let stamps = ["2026-01-04T10:00:00Z", "2026-01-04T10:00:01Z"];
    let schemas = vec![table(
        "AppTraces",
        vec![
            typed("Stamped", "string", &stamps),
            field("Properties.stamp", &stamps),
        ],
    )];
    let insights = analyze(&schemas);
    let names: Vec<&str> = insights.times.iter().map(|c| c.label.as_str()).collect();
    assert_eq!(names, vec!["Properties.stamp"]);
}
