use ais_analytics::exceptions::{
    build, cadence, classify, has_table_named, human_gap, query, recurring, Cadence, Group,
    HintKind, MIN_RETRY_HALF_MS,
};
use ais_analytics::exceptions_view::{count_regular, interval_text, regular, sampling_note, window_text};
use ais_analytics::json::{parse, Json};
use ais_analytics::schema::SHARE_ONE;

fn json(text: &str) -> Json {
    parse(text).expect("valid JSON")
}

fn median_secs(c: &Cadence) -> f64 {
    c.median_half_ms as f64 / 2_000.0
}

fn spread(c: &Cadence) -> f64 {
    c.spread as f64 / SHARE_ONE as f64
}

/// Seconds as half milliseconds.
fn gap(secs: f64) -> String {
    human_gap((secs * 2_000.0).round() as u128)
}

fn group(kind: &str, message: &str) -> Group {
    Group {
        exception_type: kind.into(),
        outer_message: message.into(),
        count: 10,
        events: 10,
        first: None,
        last: None,
        cadence: None,
        roles: vec!["fn-orders".into()],
        operations: vec!["ProcessOrder".into()],
        correlation_ids: vec![],
        hints: vec![],
    }
}

#[test]
fn the_query_counts_occurrences_not_stored_rows() {
    let kql = query(3);
    // count() would under-report every sampled app, which is exactly the
    // set of apps whose exceptions matter most.
    assert!(kql.contains("Count = sum(ItemCount)"), "got: {kql}");
    assert!(kql.contains("Events = count()"));
    assert!(kql.contains("by ExceptionType, OuterMessage"));
    assert!(kql.contains("| where Count > 3"));
    // Timestamps have to come back for the cadence test to mean anything.
    assert!(kql.contains("Times = make_list(TimeGenerated, 200)"));
    // The window is the request timespan, not a hardcoded ago().
    assert!(!kql.contains("ago("), "the range belongs to the caller");
}

#[test]
fn a_failed_listener_is_named_as_such() {
    let hints = classify(&group(
        "System.InvalidOperationException",
        "The listener for function 'X' was unable to start.",
    ));
    assert_eq!(hints[0].kind, HintKind::Cause);
    assert!(hints[0].text.contains("failed to initialise"));
}

/// The framework says it could not parse a connection string; the cause
/// is nearly always that the string arrived empty.
#[test]
fn a_broken_connection_string_points_at_key_vault() {
    let hints = classify(&group(
        "System.ArgumentException",
        "Format of the initialization string does not conform to specification \
         starting at index 0. (Parameter 'DbConnectionOptions')",
    ));
    assert!(
        hints.iter().any(|h| h.text.contains("Key Vault")),
        "{hints:?}"
    );
}

#[test]
fn the_same_signature_under_another_type_is_not_matched() {
    // Same message shape, different exception type: the Key Vault story
    // is specific to ArgumentException and must not be asserted here.
    let hints = classify(&group("System.FormatException", "bad DbConnectionOptions"));
    assert!(!hints.iter().any(|h| h.text.contains("Key Vault")));
}

#[test]
fn one_failure_under_many_names_is_reported_as_one_cause() {
    let mut g = group("System.ArgumentException", "boom");
    g.roles = vec!["fn-orders".into(), "fn-billing".into(), "fn-audit".into()];
    let hints = classify(&g);
    let shared = hints.iter().find(|h| h.kind == HintKind::Shared).unwrap();
    assert!(shared.text.contains("3 apps"), "{}", shared.text);
    assert!(
        shared.text.contains("not 3 separate bugs"),
        "{}",
        shared.text
    );
}

#[test]
fn a_single_app_gets_no_shared_cause_hint() {
    let hints = classify(&group("System.ArgumentException", "boom"));
    assert!(hints.iter().all(|h| h.kind != HintKind::Shared));
}

/// A timer looks nothing like a burst, and min/max/count cannot tell them
/// apart.
#[test]
fn a_steady_retry_is_regular_and_a_burst_is_not() {
    let every_90s: Vec<i64> = (0..20).map(|i| i * 90_000).collect();
    let c = cadence(&every_90s).unwrap();
    assert!(c.regular);
    assert!((median_secs(&c) - 90.0).abs() < 0.001);

    // Ragged: retries that are nothing like a schedule.
    let ragged = vec![0i64, 2_000, 45_000, 47_500, 600_000, 601_000, 900_000];
    assert!(!cadence(&ragged).unwrap().regular);
}

/// A burst is perfectly evenly spaced too, so evenness alone would call
/// a hot loop a retry timer. It is the speed that gives it away.
#[test]
fn an_evenly_spaced_burst_is_not_a_retry_timer() {
    let burst: Vec<i64> = (0..20).map(|i| i * 500).collect();
    let c = cadence(&burst).unwrap();
    // Even — the spread test alone would have passed it.
    assert!(spread(&c) < 0.25);
    // But half a second apart is not something on a schedule.
    assert!(!c.regular, "a 0.5s hammer must not read as a retry timer");
}

#[test]
fn real_world_jitter_still_counts_as_regular() {
    // A 60s timer that drifts by a second or two, as they all do.
    let jittery: Vec<i64> = [0, 61_000, 119_000, 181_000, 240_000, 302_000]
        .into_iter()
        .collect();
    assert!(cadence(&jittery).unwrap().regular);
}

#[test]
fn too_few_occurrences_to_call_it_a_cadence() {
    assert!(cadence(&vec![0, 60_000, 120_000]).is_none());
    assert!(cadence(&vec![]).is_none());
    // Identical timestamps give a zero median gap and no usable answer.
    assert!(cadence(&vec![5, 5, 5, 5]).is_none());
}

#[test]
fn rows_become_groups_with_sampling_made_visible() {
    let row = json(
        r#"{
            "ExceptionType": "System.ArgumentException",
            "OuterMessage": "bad DbConnectionOptions",
            "Count": 400,
            "Events": 4,
            "First": "2026-08-24T10:00:00Z",
            "Last":  "2026-08-24T10:04:30Z",
            "Times": ["2026-08-24T10:00:00Z","2026-08-24T10:01:30Z",
                      "2026-08-24T10:03:00Z","2026-08-24T10:04:30Z"],
            "Roles": ["fn-orders","fn-billing"],
            "Operations": ["ProcessOrder"],
            "Correlations": ["abc-123","def-456"]
        }"#,
    );
    let g = build(&row);
    assert_eq!(g.count, 400);
    assert_eq!(g.events, 4);
    // 400 occurrences behind 4 stored rows — the view has to say so.
    assert!(g.sampled());
    assert!(g.first.is_some() && g.last.is_some());
    assert_eq!(g.correlation_ids.len(), 2);
    let c = g.cadence.unwrap();
    assert!(c.regular);
    assert!((median_secs(&c) - 90.0).abs() < 0.001);
    // Both the signature and the spread should have been recognised.
    assert!(g.hints.iter().any(|h| h.kind == HintKind::Cause));
    assert!(g.hints.iter().any(|h| h.kind == HintKind::Shared));
    assert!(g.hints.iter().any(|h| h.kind == HintKind::Cadence));
}

#[test]
fn an_unsampled_group_does_not_claim_to_be_sampled() {
    let g = group("X", "y");
    assert!(!g.sampled());
}

#[test]
fn gaps_read_the_way_someone_would_say_them() {
    assert_eq!(gap(45.0), "45s");
    assert_eq!(gap(89.4), "89s");
    assert_eq!(gap(120.0), "2m");
    assert_eq!(gap(150.0), "2m 30s");
    assert_eq!(gap(3600.0), "1h");
    assert_eq!(gap(3900.0), "1h 5m");
}

#[test]
fn a_workspace_without_app_insights_is_recognised() {
    assert!(has_table_named(&vec![
        "AppTraces".into(),
        "AppExceptions".into()
    ]));
    // No App Insights: the view must say so rather than show "nothing
    // is failing", which would be a very different claim.
    assert!(!has_table_named(&vec!["Syslog".into(), "Heartbeat".into()]));
    assert!(!has_table_named(&vec![]));
}

#[test]
fn groups_are_identified_by_their_signature() {
    let a = group("System.ArgumentException", "boom");
    let b = group("System.ArgumentException", "different");
    assert_ne!(a.id(), b.id());
    assert_eq!(a.id(), group("System.ArgumentException", "boom").id());
}

/// The whole-number arithmetic says what rounding doubles would.
#[test]
fn spoken_gaps_agree_with_rounded_doubles() {
    let with_doubles = |secs: f64| -> String {
        let s = secs.round() as u64;
        match s {
            0..=90 => format!("{s}s"),
            91..=3599 => {
                let (m, rest) = (s / 60, s % 60);
                if rest == 0 {
                    format!("{m}m")
                } else {
                    format!("{m}m {rest}s")
                }
            }
            _ => {
                let (h, rest) = (s / 3600, (s % 3600) / 60);
                if rest == 0 {
                    format!("{h}h")
                } else {
                    format!("{h}h {rest}m")
                }
            }
        }
    };
    for half_ms in (0..40_000_000_u128).step_by(9_973) {
        let secs = half_ms as f64 / 2_000.0;
        assert_eq!(human_gap(half_ms), with_doubles(secs), "{half_ms}");
    }
    for half_ms in [
        999, 1_000, 1_001, 178_999, 179_000, 180_000, 180_999, 181_000, 7_198_999, 7_199_000,
    ] {
        let secs = half_ms as f64 / 2_000.0;
        assert_eq!(human_gap(half_ms), with_doubles(secs), "{half_ms}");
    }
}

#[test]
fn a_regular_cadence_is_slow_and_even() {
    let c = cadence(&vec![0, 30_000, 60_500, 90_000, 120_000]).unwrap();
    assert!(c.regular);
    assert!(c.median_half_ms >= MIN_RETRY_HALF_MS);
    assert!(spread(&c) < 0.25);
    // The order in which the times come does not matter.
    assert_eq!(cadence(&vec![90_000, 0, 120_000, 30_000, 60_500]), Some(c));
}

#[test]
fn regular_groups_lead_the_list() {
    let row = |name: &str, count: u64, times: &str| {
        json(&format!(
            "{{\"ExceptionType\":\"{name}\",\"OuterMessage\":\"m\",\"Count\":{count},\"Events\":{count},\"Times\":[{times}]}}"
        ))
    };
    let steady = r#""2026-08-24T10:00:00Z","2026-08-24T10:01:30Z","2026-08-24T10:03:00Z","2026-08-24T10:04:30Z""#;
    let groups = recurring(&vec![
        row("Noisy", 900, ""),
        row("Steady", 4, steady),
        row("Quiet", 5, ""),
    ]);
    let names: Vec<&str> = groups.iter().map(|g| g.exception_type.as_str()).collect();
    assert_eq!(names, vec!["Steady", "Noisy", "Quiet"]);
    assert_eq!(count_regular(&groups), 1);
    assert!(regular(&groups[0]) && !regular(&groups[1]));
    assert_eq!(interval_text(&groups[0]), Some("every ~90s".to_string()));
    assert_eq!(interval_text(&groups[1]), None);
    assert_eq!(sampling_note(&groups[0]), None);
    let mut sampled = group("X", "y");
    sampled.count = 400;
    sampled.events = 4;
    assert_eq!(
        sampling_note(&sampled),
        Some(
            "400 occurrences behind 4 stored rows — Application Insights sampling is on for this app."
                .to_string()
        )
    );
}

#[test]
fn a_window_is_shown_only_when_both_ends_are_known() {
    let mut g = group("X", "y");
    assert_eq!(window_text(&g), "");
    g.first = Some(1_767_520_800_000);
    g.last = Some(1_767_520_801_500);
    assert_eq!(
        window_text(&g),
        "01-04 10:00:00.000 → 01-04 10:00:01.500"
    );
}
