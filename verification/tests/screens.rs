use ais_analytics::az::{AzLoginState, Workspace};
use ais_analytics::cache::CachedScan;
use ais_analytics::clipboard::{copy, Reply};
use ais_analytics::discover::{Insights, RoleCandidate};
use ais_analytics::exceptions::Group;
use ais_analytics::exceptions_view;
use ais_analytics::history::Entry;
use ais_analytics::home::{
    self, all_open, apps_to_check, autoload, bound_field, column_type, commit, document_foot,
    drop_rule, failed_trace, field_label, find_key, follow, follow_entry, fragment_of,
    initial_value, key_options, range_change, reconcile, role_options, shows, shows_suggestions,
    missing_line, offered_values, can_follow, count_line, still_wanted, submitted, table_summary, tables_with_data, toggle, toggle_row, visible,
    Autoload, Choices, Committed, Freshness, LoadState, PickOption, Scan, FACT_COLUMNS,
};
use ais_analytics::instances::{
    aged_out, instance_is_dead, is_instance_dir, window_title, Age, Probe, CUTOFF_SECONDS,
};
use ais_analytics::keys::{Binding, KeyCandidate};
use ais_analytics::json::{document_from, parse, pretty_text};
use ais_analytics::lanes::LaneState;
use ais_analytics::loganalytics::TimeRange;
use ais_analytics::logs::Filter;
use ais_analytics::logs_view::{self, is_capped, severity_rank, short_time, Rank, MAX_LINES};
use ais_analytics::order::TextSet;
use ais_analytics::schema::{FieldInfo, TableSchema, SHARE_ONE};
use ais_analytics::signals::Signals;
use ais_analytics::signals_view;
use ais_analytics::trace::ErrorRule;
use ais_analytics::welcome::{
    after_poll, empty_message, find_workspace, is_signed_in, subscription_count, PollStep,
    LOGIN_POLLS,
};

// ── Issues ────────────────────────────────────────────────────────────────

#[test]
fn short_ids_are_left_alone() {
    assert_eq!(exceptions_view::shorten("abc-123"), "abc-123");
}

#[test]
fn exceptions_view_long_ids_keep_both_ends() {
    assert_eq!(
        exceptions_view::shorten("9f1c2d3e4a5b6c7d8e9f0a1b"),
        "9f1c2d3e…9f0a1b"
    );
}

/// Slicing by byte would panic; ids come from log data.
#[test]
fn multibyte_ids_do_not_panic() {
    assert_eq!(
        exceptions_view::shorten(&"→".repeat(40)).chars().count(),
        15
    );
}

fn group(roles: &[&str]) -> Group {
    Group {
        exception_type: "X".into(),
        outer_message: "m".into(),
        count: 1,
        events: 1,
        first: None,
        last: None,
        cadence: None,
        roles: roles.iter().map(|r| r.to_string()).collect(),
        operations: vec![],
        correlation_ids: vec![],
        hints: vec![],
    }
}

#[test]
fn only_failing_apps_are_asked_about() {
    let groups = vec![group(&["b", "a"]), group(&["c", "a"])];
    assert_eq!(apps_to_check(&groups, "sub"), vec!["a", "b", "c"]);
    assert!(apps_to_check(&groups, "").is_empty());
    assert!(apps_to_check(&vec![], "sub").is_empty());
}

#[test]
fn clicking_twice_closes_what_was_opened() {
    let once = toggle(&None, "a".to_string());
    assert_eq!(once, Some("a".to_string()));
    assert_eq!(toggle(&once, "a".to_string()), None);
    assert_eq!(toggle(&once, "b".to_string()), Some("b".to_string()));
}

// ── Picking columns ───────────────────────────────────────────────────────

fn option(id: &str, haystack: &str) -> PickOption {
    PickOption {
        id: id.into(),
        label: id.into(),
        note: String::new(),
        haystack: haystack.into(),
    }
}

#[test]
fn an_empty_filter_shows_everything() {
    assert!(shows(&option("operationid", "operationid"), "", ""));
}

#[test]
fn the_filter_matches_anywhere_in_the_haystack() {
    let o = option("properties.correlationid", "properties.correlationid");
    assert!(shows(&o, "correlation", ""));
    assert!(shows(&o, "properties", ""));
    assert!(!shows(&o, "operation", ""));
}

/// A correlation key can span several spellings across several tables,
/// and any of them is a reasonable thing to search for.
#[test]
fn a_key_is_findable_by_any_name_it_goes_by() {
    let o = option(
        "AppRequests\u{1}OperationId",
        "operationid job_ref_g apprequests myapp_cl",
    );
    assert!(shows(&o, "job_ref", ""));
    assert!(shows(&o, "myapp", ""));
    assert!(shows(&o, "operationid", ""));
}

/// A filter must never hide the thing it says is selected.
#[test]
fn the_selected_option_survives_any_filter() {
    let o = option("resultcode", "resultcode");
    assert!(!shows(&o, "zzz", ""));
    assert!(shows(&o, "zzz", "resultcode"));
}

#[test]
fn the_filter_is_trimmed_and_lowercased() {
    let options = vec![option("alpha", "alpha"), option("beta", "beta"), option("gamma", "gamma")];
    assert_eq!(visible(&options, " AL ", ""), vec![0]);
    assert_eq!(visible(&options, "AL", "gamma"), vec![0, 2]);
    assert_eq!(visible(&options, "  ", ""), vec![0, 1, 2]);
    assert!(visible(&options, "zzz", "").is_empty());
}

fn binding(table: &str, field: &str) -> Binding {
    Binding {
        table: table.into(),
        field: field.into(),
        kind: "string".into(),
        seen_in: 1,
        sampled_rows: 1,
        distinct: 1,
    }
}

fn key(id: &str, shared: usize) -> KeyCandidate {
    KeyCandidate {
        id: id.into(),
        label: "OperationId".into(),
        bindings: vec![binding("AppRequests", "OperationId"), binding("MyApp_CL", "job_ref_g")],
        missing: vec![],
        shared_values: shared,
        cross_named: true,
        id_shaped: true,
        well_known: true,
        avg_fill: SHARE_ONE,
        avg_distinct_ratio: SHARE_ONE,
        score: 0,
        evidence: vec![],
    }
}

fn role(id: &str, label: &str) -> RoleCandidate {
    RoleCandidate {
        id: id.into(),
        label: label.into(),
        tables: vec![],
        note: "2 tables".into(),
        score: 0,
    }
}

fn insights() -> Insights {
    Insights {
        tables: vec!["AppRequests".into(), "MyApp_CL".into(), "Other".into()],
        keys: vec![key("k1", 4), key("k2", 0)],
        times: vec![role("enqueuedat", "EnqueuedAt")],
        labels: (0..8).map(|i| role(&format!("l{i}"), &format!("L{i}"))).collect(),
        ..Insights::default()
    }
}

#[test]
fn keys_are_listed_with_what_they_are_found_by() {
    let options = key_options(&insights());
    assert_eq!(options.len(), 2);
    assert_eq!(options[0].note, "2/3 tables, values match");
    assert_eq!(options[1].note, "2/3 tables");
    assert_eq!(
        options[0].haystack,
        "operationid operationid apprequests job_ref_g myapp_cl"
    );
    let roles = role_options(&vec![role("enqueuedat", "EnqueuedAt")]);
    assert_eq!(roles[0].haystack, "enqueuedat");
    assert_eq!(roles[0].note, "2 tables");
}

#[test]
fn choices_follow_the_scan() {
    let options = vec!["a".to_string(), "b".to_string()];
    let mut s = String::new();
    reconcile(&mut s, &options);
    assert_eq!(s, "a");
    s = "b".to_string();
    reconcile(&mut s, &options);
    assert_eq!(s, "b");
    s = "gone".to_string();
    reconcile(&mut s, &options);
    assert_eq!(s, "");
    reconcile(&mut s, &vec![]);
    assert_eq!(s, "");

    let mut choices = Choices {
        key_id: String::new(),
        time_id: "gone".into(),
        label_id: "l3".into(),
        lane_id: "l9".into(),
    };
    choices.reconcile(&insights());
    assert_eq!(choices.key_id, "k1");
    assert_eq!(choices.time_id, "");
    assert_eq!(choices.label_id, "l3");
    // Lanes default to tables.
    assert_eq!(choices.lane_id, "");
}

// ── Following a value ─────────────────────────────────────────────────────

#[test]
fn short_values_are_left_alone() {
    assert_eq!(home::shorten("order-42"), "order-42");
    assert_eq!(home::shorten(&"x".repeat(20)), "x".repeat(20));
}

#[test]
fn home_long_ids_keep_both_ends() {
    let uuid = "9f1c2d3e-4a5b-6c7d-8e9f-0a1b2c3d4e5f";
    assert_eq!(home::shorten(uuid), "9f1c2d3e-4…3d4e5f");
}

/// Slicing by byte would panic here; the chip must survive any value the
/// user pastes.
#[test]
fn multibyte_values_do_not_panic() {
    let value = "→".repeat(40);
    assert_eq!(home::shorten(&value).chars().count(), 17);
}

fn choices() -> Choices {
    Choices {
        key_id: "k2".into(),
        time_id: "enqueuedat".into(),
        label_id: "l0".into(),
        lane_id: String::new(),
    }
}

#[test]
fn a_value_is_followed_with_what_is_chosen() {
    let spec = follow(&insights(), &choices(), "abc", TimeRange::LastHour).expect("a key");
    assert_eq!(spec.key.id, "k2");
    assert_eq!(spec.value, "abc");
    assert_eq!(spec.time_field, "enqueuedat");
    assert_eq!(spec.label_field, "l0");
    assert_eq!(spec.fact_fields.len(), FACT_COLUMNS);
    assert_eq!(spec.range, TimeRange::LastHour);
    assert_eq!(
        follow_entry(&spec),
        Entry {
            value: "abc".into(),
            key: "OperationId".into()
        }
    );
    let none = Choices {
        key_id: "gone".into(),
        ..choices()
    };
    assert!(follow(&insights(), &none, "abc", TimeRange::LastHour).is_none());
    assert!(find_key(&insights().keys, "k1").is_some());
}

#[test]
fn a_trace_that_cannot_start_says_so_in_every_lane() {
    let spec = follow(&insights(), &choices(), "abc", TimeRange::LastHour).expect("a key");
    let trace = failed_trace(&insights().tables, &spec, "no credentials");
    assert_eq!(trace.lanes.len(), 3);
    assert!(trace
        .lanes
        .iter()
        .all(|l| l.state == LaneState::Failed(0) && l.error.as_deref() == Some("no credentials")));
    assert_eq!(trace.value, "abc");
    assert_eq!(trace.blocks_found, 0);
}

fn recent(values: &[&str]) -> Vec<Entry> {
    values
        .iter()
        .map(|v| Entry {
            value: v.to_string(),
            key: "K".into(),
        })
        .collect()
}

#[test]
fn the_last_value_is_replayed_once() {
    let list = recent(&["last", "older"]);
    assert_eq!(
        autoload(&LoadState::Done, "k", false, &list),
        Autoload::Replay("last".to_string())
    );
    assert_eq!(autoload(&LoadState::Done, "k", true, &list), Autoload::Nothing);
    assert_eq!(autoload(&LoadState::Loading, "k", false, &list), Autoload::Nothing);
    assert_eq!(autoload(&LoadState::Done, "", false, &list), Autoload::Nothing);
    assert_eq!(autoload(&LoadState::Done, "k", false, &vec![]), Autoload::Settled);
    assert_eq!(initial_value(&list), "last");
    assert_eq!(initial_value(&vec![]), "");
}

#[test]
fn lookups_wait_for_enough_to_look_for() {
    assert_eq!(fragment_of(" abc "), None);
    assert_eq!(fragment_of(" abcd "), Some("abcd".to_string()));
    // Length is in bytes.
    assert_eq!(fragment_of("éé"), Some("éé".to_string()));
    assert!(still_wanted("abcd", "abcd"));
    assert!(!still_wanted("abcde", "abcd"));
    // Space around it supersedes nothing.
    assert!(still_wanted(" abcd ", "abcd"));
}

#[test]
fn a_key_says_where_it_was_not_sampled() {
    assert_eq!(missing_line(&key("k", 0)), None);
    let partial = KeyCandidate {
        missing: vec!["A".into(), "B".into()],
        ..key("k", 0)
    };
    assert_eq!(missing_line(&partial), Some("Not sampled in: A, B".to_string()));
    assert_eq!(count_line(" ", 3, 7), "7 options");
    assert_eq!(count_line("x", 3, 7), "3 of 7");
    assert!(can_follow(" v ", false));
    assert!(!can_follow(" v ", true));
    assert!(!can_follow("  ", false));
}

#[test]
fn only_some_sampled_values_are_offered() {
    let mut values = TextSet::new();
    for i in 0..20 {
        values.insert(format!("v{i:02}"));
    }
    let mut s = schema("T", 1);
    s.fields[0].name = "Code".into();
    s.fields[0].values = values;
    let offered = offered_values(&vec![s], "code");
    assert_eq!(offered.len(), 12);
    assert_eq!(offered[0], "v00");
}

#[test]
fn suggestions_go_once_one_is_taken() {
    let list = vec!["abcd-1".to_string(), "abcd-2".to_string()];
    assert!(shows_suggestions(&list, false, "abcd"));
    assert!(!shows_suggestions(&list, false, " abcd-1 "));
    assert!(shows_suggestions(&vec![], true, "abcd"));
    assert!(!shows_suggestions(&vec![], false, "abcd"));
    assert_eq!(submitted("  x "), Some("x".to_string()));
    assert_eq!(submitted("   "), None);
}

// ── The scan ──────────────────────────────────────────────────────────────

fn schema(name: &str, rows: usize) -> TableSchema {
    TableSchema {
        table: name.into(),
        sampled_rows: rows.min(20),
        rows_in_range: rows,
        fields: vec![FieldInfo {
            name: "Properties.id".into(),
            kind: String::new(),
            types: vec!["string".into(), "number".into()],
            seen_in: 1,
            distinct: 1,
            values: TextSet::new(),
        }],
    }
}

#[test]
fn a_failed_refresh_keeps_what_is_on_screen() {
    let mut scan = Scan::new();
    assert!(!scan.open_cached(None));
    assert!(scan.open_cached(Some(CachedScan {
        scanned_at: 5,
        range: TimeRange::LastDay,
        schemas: vec![schema("T", 3)],
    })));
    assert_eq!(scan.state, LoadState::Done);
    scan.start(true);
    assert!(scan.refreshing);
    assert_eq!(scan.freshness(), Freshness::Refreshing);
    scan.finish(true, 9, Err("offline".to_string()));
    assert!(!scan.refreshing);
    assert_eq!(scan.freshness(), Freshness::Stale("offline".to_string()));
    assert_eq!(scan.schemas, vec![schema("T", 3)]);
    assert_eq!(scan.state, LoadState::Done);
    assert_eq!(scan.scanned_at, Some(5));
    assert_eq!(scan.refresh_error.as_deref(), Some("offline"));
    // The next one starts clean.
    scan.start(true);
    assert_eq!(scan.refresh_error, None);
    scan.finish(true, 9, Ok(vec![schema("U", 1)]));
    assert_eq!(scan.schemas[0].table, "U");
    assert_eq!(scan.scanned_at, Some(9));
    assert_eq!(scan.freshness(), Freshness::Sampled(9));
    assert_eq!(Scan::new().freshness(), Freshness::Unknown);
}

#[test]
fn a_cold_scan_blanks_the_screen_and_reports_its_failure() {
    let mut scan = Scan::new();
    scan.start(false);
    assert_eq!(scan.state, LoadState::Loading);
    assert!(scan.schemas.is_empty());
    scan.finish(false, 1, Err("access denied (x)".to_string()));
    assert_eq!(scan.state, LoadState::Failed("access denied (x)".to_string()));
    assert!(scan.is_forbidden());
    scan.finish(false, 1, Err("offline".to_string()));
    assert!(!scan.is_forbidden());
}

#[test]
fn picking_the_same_range_changes_nothing() {
    assert_eq!(range_change("PT1H", TimeRange::LastDay), Some(TimeRange::LastHour));
    assert_eq!(range_change("P1D", TimeRange::LastDay), None);
    assert_eq!(range_change("nonsense", TimeRange::LastDay), None);
}

// ── Error rules ───────────────────────────────────────────────────────────

#[test]
fn rules_are_added_once_and_can_be_dropped() {
    let added = commit(&vec![], "resultcode", " 500 ", "ResultCode");
    let Committed::Added(rules) = added else {
        panic!("expected a rule");
    };
    assert_eq!(
        rules,
        vec![ErrorRule {
            field: "resultcode".into(),
            display: "ResultCode".into(),
            value: "500".into()
        }]
    );
    assert_eq!(commit(&rules, "resultcode", "500", "ResultCode"), Committed::Known);
    assert_eq!(commit(&rules, "", "500", ""), Committed::Incomplete);
    assert_eq!(commit(&rules, "resultcode", "  ", ""), Committed::Incomplete);
    assert!(drop_rule(&rules, &rules[0]).is_empty());
    let fields = vec![role("a", "A"), role("b", "B")];
    assert_eq!(field_label(&fields, "b"), "B");
    assert_eq!(field_label(&fields, "c"), "");
}

// ── Tables and documents ──────────────────────────────────────────────────

#[test]
fn tables_say_what_they_hold() {
    let schemas = vec![schema("A", 0), schema("B", 45)];
    assert_eq!(tables_with_data(&schemas), 1);
    assert_eq!(table_summary(&schemas[0]), "1 columns · no rows in range");
    assert_eq!(table_summary(&schemas[1]), "1 columns · 45 rows · 20 sampled");
    assert_eq!(column_type(&schemas[0].fields[0]), "string, number");
    let declared = FieldInfo {
        kind: "datetime".into(),
        ..schema("A", 0).fields.remove(0)
    };
    assert_eq!(column_type(&declared), "datetime");
    assert_eq!(
        bound_field(&Some(key("k", 0)), "MyApp_CL"),
        Some("job_ref_g".to_string())
    );
    assert_eq!(bound_field(&Some(key("k", 0)), "Other"), None);
    assert_eq!(bound_field(&None, "MyApp_CL"), None);
}

#[test]
fn rows_open_and_close() {
    let paths = vec!["A".to_string(), "B".to_string()];
    let mut open: Vec<String> = Vec::new();
    toggle_row(&mut open, "A");
    assert!(!all_open(&paths, &open));
    toggle_row(&mut open, "B");
    assert!(all_open(&paths, &open));
    toggle_row(&mut open, "A");
    assert_eq!(open, vec!["B"]);
    assert!(!all_open(&vec![], &open));
}

#[test]
fn documents_are_indented_for_reading() {
    let doc = parse(r#"{"b":[1,true],"a":"x"}"#).expect("valid JSON");
    assert_eq!(
        pretty_text(&doc),
        "{\n  \"a\": \"x\",\n  \"b\": [\n    1,\n    true\n  ]\n}"
    );
    assert_eq!(document_from(Ok("{}".to_string())), "{}");
    assert_eq!(
        document_from(Err("too deep".to_string())),
        "could not render document: too deep"
    );
}

#[test]
fn documents_are_measured_as_shown() {
    assert_eq!(document_foot(""), "0 lines · 0 bytes");
    assert_eq!(document_foot("{}"), "1 lines · 2 bytes");
    assert_eq!(document_foot("{\n  \"é\"\n}"), "3 lines · 10 bytes");
    for text in ["a\n", "\n", "\n\n", "a\n\nb", "a\r\nb\n"] {
        assert_eq!(
            document_foot(text),
            format!("{} lines · {} bytes", text.lines().count(), text.len())
        );
    }
}

// ── Logs ──────────────────────────────────────────────────────────────────

#[test]
fn only_the_time_of_day_is_shown() {
    assert_eq!(short_time("2026-09-08T13:31:38.224Z"), "13:31:38");
    assert_eq!(short_time("2026-09-08T13:31:38Z"), "13:31:38");
    assert_eq!(short_time("not a timestamp"), "not a timestamp");
}

/// Severity vocabulary is the workspace's, not ours. Numeric levels and
/// words both appear, and anything unrecognised must stay unstyled
/// rather than be coloured on a guess.
#[test]
fn known_severities_are_ranked_and_the_rest_left_alone() {
    assert!(matches!(severity_rank("Error"), Rank::Bad));
    assert!(matches!(severity_rank("3"), Rank::Bad));
    assert!(matches!(severity_rank("warning"), Rank::Warn));
    assert!(matches!(severity_rank("Information"), Rank::Plain));
    assert!(matches!(severity_rank("Verbose"), Rank::Plain));
}

#[test]
fn odd_timestamps_are_cut_no_further_than_they_say() {
    assert_eq!(short_time("1.5T9"), "1.5T9");
    assert_eq!(short_time("T"), "");
    assert_eq!(short_time("T09:00ZZ"), "09:00");
    assert_eq!(short_time("éT1.2"), "1");
    assert_eq!(severity_rank("  FATAL "), Rank::Bad);
    assert_eq!(severity_rank("2"), Rank::Warn);
    assert!(is_capped(MAX_LINES));
    assert!(!is_capped(MAX_LINES - 1));
}

#[test]
fn each_view_says_what_it_has_instead_of_lines() {
    let failed = || Some("offline".to_string());
    assert_eq!(
        exceptions_view::panel(false, true, failed()),
        exceptions_view::Panel::NoTable
    );
    assert_eq!(
        exceptions_view::panel(true, true, failed()),
        exceptions_view::Panel::Loading
    );
    assert_eq!(
        exceptions_view::panel(true, false, failed()),
        exceptions_view::Panel::Failed("offline".to_string())
    );
    assert_eq!(
        exceptions_view::panel(true, false, None),
        exceptions_view::Panel::Shown
    );
    assert_eq!(
        logs_view::panel(failed(), "", true, 0),
        logs_view::Panel::Failed("offline".to_string())
    );
    assert_eq!(logs_view::panel(None, "", true, 0), logs_view::Panel::NoTable);
    assert_eq!(logs_view::panel(None, "T", true, 0), logs_view::Panel::Reading);
    assert_eq!(logs_view::panel(None, "T", false, 0), logs_view::Panel::Nothing);
    assert_eq!(logs_view::panel(None, "T", false, 1), logs_view::Panel::Shown);
    let none = Signals::default();
    assert_eq!(
        signals_view::panel(true, failed(), "", &none),
        signals_view::Panel::Loading
    );
    assert_eq!(
        signals_view::panel(false, failed(), "", &none),
        signals_view::Panel::Failed("offline".to_string())
    );
    assert_eq!(
        signals_view::panel(false, None, "", &none),
        signals_view::Panel::NoTable
    );
    assert_eq!(
        signals_view::panel(false, None, "T", &none),
        signals_view::Panel::Nothing
    );
}

#[test]
fn filters_change_one_at_a_time() {
    let start = Filter {
        text: "a".into(),
        severity: "Error".into(),
    };
    let text = logs_view::with_text(&start, "b");
    assert_eq!((text.text.as_str(), text.severity.as_str()), ("b", "Error"));
    let severity = logs_view::with_severity(&start, "");
    assert_eq!((severity.text.as_str(), severity.severity.as_str()), ("a", ""));
    assert!(logs_view::is_filtered(&severity));
    assert!(!logs_view::is_filtered(&Filter::default()));
}

// ── Welcome ───────────────────────────────────────────────────────────────

fn workspace(name: &str, id: &str, subscription: &str) -> Workspace {
    Workspace {
        name: name.into(),
        resource_group: "rg".into(),
        customer_id: id.into(),
        subscription_id: subscription.into(),
    }
}

#[test]
fn a_sign_in_is_waited_for_but_not_forever() {
    let signed_in = AzLoginState::LoggedIn {
        account: "me".into(),
        subscription_id: "s".into(),
    };
    assert!(is_signed_in(&signed_in));
    assert_eq!(after_poll(1, false, &signed_in), PollStep::SignedIn);
    assert_eq!(after_poll(1, false, &AzLoginState::NotLoggedIn), PollStep::AskAgain);
    assert_eq!(
        after_poll(LOGIN_POLLS, false, &AzLoginState::NotLoggedIn),
        PollStep::GiveUp
    );
    assert_eq!(after_poll(LOGIN_POLLS, true, &signed_in), PollStep::SignedIn);
    // The browser was closed without anyone signing in.
    assert_eq!(
        after_poll(1, true, &AzLoginState::NotLoggedIn),
        PollStep::GiveUp
    );
}

#[test]
fn workspaces_are_chosen_by_id() {
    let list = vec![
        workspace("same", "i1", "s1"),
        workspace("same", "i2", "s1"),
        workspace("other", "i3", "s2"),
    ];
    assert_eq!(subscription_count(&list, 3), 5);
    assert_eq!(find_workspace(&list, "i2").expect("found").customer_id, "i2");
    assert!(find_workspace(&list, "same").is_none());
}

#[test]
fn nothing_found_is_claimed_only_when_everything_answered() {
    assert_eq!(
        empty_message(0, 4),
        "No Log Analytics workspaces in any of your 4 subscriptions."
    );
    assert_eq!(
        empty_message(2, 4),
        "Could not read 2 of 4 subscriptions, so this is not an answer about whether you have workspaces."
    );
}

// ── Clipboard and instances ───────────────────────────────────────────────

#[test]
fn a_copy_that_was_not_made_is_not_reported_as_made() {
    assert_eq!(copy(Ok(()), Some(Reply::Done(Ok(())))), Ok(()));
    assert_eq!(
        copy(Ok(()), Some(Reply::Done(Err("busy".to_string())))),
        Err("busy".to_string())
    );
    assert_eq!(copy(Ok(()), Some(Reply::TimedOut)), Ok(()));
    let gone = Err("the clipboard is no longer available".to_string());
    assert_eq!(copy(Ok(()), Some(Reply::Gone)), gone);
    assert_eq!(copy(Ok(()), None), gone);
    assert_eq!(
        copy(Err("no display".to_string()), None),
        Err("no display".to_string())
    );
}

#[test]
fn a_directory_in_use_is_never_taken_for_dead() {
    assert!(instance_is_dead(Probe::Free));
    assert!(!instance_is_dead(Probe::Held));
    assert!(!instance_is_dead(Probe::Unreadable));
    assert!(!instance_is_dead(Probe::Missing(None)));
    let exactly = Age {
        seconds: CUTOFF_SECONDS,
        nanos: 0,
    };
    assert!(!instance_is_dead(Probe::Missing(Some(exactly))));
    assert!(aged_out(Some(Age { nanos: 1, ..exactly })));
    assert!(is_instance_dir("instance-123"));
    assert!(!is_instance_dir("scans"));
    assert_eq!(window_title("0.1.26", "law"), "AIS Analytics 0.1.26 — law");
}
