use ais_analytics::az::{
    absorb_workspaces, any_expired, check_login, find_site, find_site_args, grant_args,
    grant_self_log_analytics_reader, list_subscription_ids, open_login, parse_config_references,
    plausible_resource_name, references_from, references_url, signed_in_principal_id, site_from,
    site_key_vault_refs, subscriptions_from, unresolved_key_vault_refs, workspace_list_args,
    AzAccount, AzLoginState, KeyVaultRef, Ran, SubscriptionError, Workspace, WorkspaceScan,
};
use ais_analytics::json::{parse, Json};

fn json(text: &str) -> Json {
    parse(text).expect("valid JSON")
}

fn printed(stdout: &str) -> Ran {
    Ran::Finished {
        ok: true,
        stdout: stdout.into(),
        stderr: String::new(),
    }
}

fn failed(stderr: &str) -> Ran {
    Ran::Finished {
        ok: false,
        stdout: String::new(),
        stderr: stderr.into(),
    }
}

fn not_run(missing: bool, message: &str) -> Ran {
    Ran::NotRun {
        missing,
        message: message.into(),
    }
}

#[test]
fn resource_ids_are_assembled_for_role_assignment() {
    let ws = Workspace {
        name: "law-prod".into(),
        resource_group: "rg-obs".into(),
        customer_id: "guid".into(),
        subscription_id: "sub-1".into(),
    };
    assert_eq!(
        ws.resource_id(),
        "/subscriptions/sub-1/resourceGroups/rg-obs/providers/\
         Microsoft.OperationalInsights/workspaces/law-prod"
    );
}

#[test]
fn log_written_names_are_checked_before_reaching_the_cli() {
    assert!(plausible_resource_name("fn-orders-prod"));
    assert!(plausible_resource_name("my_app.v2"));
    // AppRoleName is written by the monitored app, not by Azure.
    assert!(!plausible_resource_name(""));
    // Passed as an argv entry, so this is not shell injection — but `az`
    // would read it as an option and run a different query.
    assert!(!plausible_resource_name("--query"));
    assert!(!plausible_resource_name("-n"));
    assert!(!plausible_resource_name("a b"));
    assert!(!plausible_resource_name("app;rm -rf /"));
    assert!(!plausible_resource_name(&"x".repeat(91)));
}

#[test]
fn unresolved_references_are_separated_from_healthy_ones() {
    let body = json(
        r#"{
            "properties": {
                "SqlConnection": {
                    "status": "InitializationError",
                    "details": "Key Vault reference could not be resolved"
                },
                "StorageConnection": { "status": "Resolved", "details": "" }
            }
        }"#,
    );
    let refs = parse_config_references("fn-orders", &body);
    assert_eq!(refs.len(), 2);
    let bad: Vec<&KeyVaultRef> = refs.iter().filter(|r| !r.resolved()).collect();
    assert_eq!(bad.len(), 1);
    assert_eq!(bad[0].setting, "SqlConnection");
    assert_eq!(bad[0].app, "fn-orders");
}

#[test]
fn the_wrapped_payload_shape_is_also_accepted() {
    let body = json(
        r#"{
            "properties": { "configReferences": {
                "Secret": { "status": "Resolved" }
            }}
        }"#,
    );
    assert_eq!(parse_config_references("app", &body).len(), 1);
}

/// An API that changes shape should make this report nothing, never
/// invent a status it did not receive.
#[test]
fn an_unrecognised_payload_reports_nothing() {
    assert!(parse_config_references("app", &json("{}")).is_empty());
    assert!(parse_config_references("app", &json(r#"{"properties": []}"#)).is_empty());
    // A setting with no status at all is skipped, not defaulted.
    let no_status = json(r#"{"properties": {"S": {"vaultName": "v"}}}"#);
    assert!(parse_config_references("app", &no_status).is_empty());
}

#[test]
fn resolution_status_is_matched_case_insensitively() {
    let r = |s: &str| KeyVaultRef {
        app: "a".into(),
        setting: "s".into(),
        status: s.into(),
        details: String::new(),
    };
    assert!(r("Resolved").resolved());
    assert!(r("resolved").resolved());
    assert!(!r("InitializationError").resolved());
}

#[test]
fn references_stand_by_setting() {
    let refs = parse_config_references(
        "app",
        &json(r#"{"properties":{"b":{"status":"x"},"a":{"status":"y"}}}"#),
    );
    let settings: Vec<&str> = refs.iter().map(|r| r.setting.as_str()).collect();
    assert_eq!(settings, vec!["a", "b"]);
    assert_eq!(refs[0].details, "");
}

#[test]
fn a_login_is_told_from_none() {
    let account = || {
        Some(AzAccount {
            name: "me".into(),
            id: "sub".into(),
        })
    };
    assert_eq!(
        check_login(&printed("{}"), account()),
        AzLoginState::LoggedIn {
            account: "me".into(),
            subscription_id: "sub".into()
        }
    );
    assert_eq!(check_login(&printed("junk"), None), AzLoginState::NotLoggedIn);
    assert_eq!(
        check_login(&failed("Please run az login"), account()),
        AzLoginState::NotLoggedIn
    );
    assert_eq!(check_login(&not_run(true, "no such file"), None), AzLoginState::AzNotFound);
    assert_eq!(check_login(&not_run(false, "denied"), None), AzLoginState::NotLoggedIn);
}

#[test]
fn a_login_that_does_not_start_says_why() {
    assert_eq!(open_login(None), Ok(()));
    assert_eq!(
        open_login(Some(not_run(true, "no such file"))),
        Err("Azure CLI ('az') not found on PATH.".to_string())
    );
    assert_eq!(
        open_login(Some(not_run(false, "denied"))),
        Err("Failed to start 'az login': denied".to_string())
    );
}

#[test]
fn subscriptions_are_read_or_the_reason_is() {
    assert_eq!(
        list_subscription_ids(&printed(r#"["s1","s2"]"#)),
        Ok(vec!["s1".to_string(), "s2".to_string()])
    );
    assert_eq!(
        list_subscription_ids(&failed("  session expired \n")),
        Err("session expired".to_string())
    );
    assert_eq!(
        list_subscription_ids(&not_run(true, "no such file")),
        Err("az account list failed: no such file".to_string())
    );
    assert!(list_subscription_ids(&printed("[1]"))
        .unwrap_err()
        .starts_with("parse: "));
    assert_eq!(
        subscriptions_from(&printed(""), Err("torn".to_string())),
        Err("parse: torn".to_string())
    );
}

fn listed(name: &str) -> Workspace {
    Workspace {
        name: name.into(),
        resource_group: "rg".into(),
        customer_id: format!("id-{name}"),
        subscription_id: String::new(),
    }
}

#[test]
fn a_subscription_that_cannot_be_read_does_not_block_the_others() {
    let start = WorkspaceScan::default();
    let one = absorb_workspaces(start, "s1", &printed(""), Ok(vec![listed("a")])).expect("read");
    let two = absorb_workspaces(one, "s2", &failed(" denied \n"), Ok(vec![])).expect("reported");
    let three =
        absorb_workspaces(two, "s3", &printed(""), Ok(vec![listed("b"), listed("c")])).expect("read");
    let subs: Vec<(&str, &str)> = three
        .workspaces
        .iter()
        .map(|w| (w.name.as_str(), w.subscription_id.as_str()))
        .collect();
    assert_eq!(subs, vec![("a", "s1"), ("b", "s3"), ("c", "s3")]);
    // It is reported for what it is.
    assert_eq!(
        three.errors,
        vec![SubscriptionError {
            name: "s2".into(),
            message: "denied".into(),
            expired: false,
        }]
    );
    assert_eq!(
        absorb_workspaces(WorkspaceScan::default(), "s", &not_run(false, "broken"), Ok(vec![])),
        Err("az monitor log-analytics workspace list failed: broken".to_string())
    );
    assert_eq!(
        absorb_workspaces(WorkspaceScan::default(), "s", &printed(""), Err("torn".to_string())),
        Err("parse: torn".to_string())
    );
}

#[test]
fn granting_names_the_workspace_and_the_user() {
    let ws = Workspace {
        subscription_id: "sub-1".into(),
        ..listed("law")
    };
    let args = grant_args(&ws, "principal");
    assert_eq!(args[4], "sub-1");
    assert_eq!(args[8], "principal");
    assert_eq!(args[12], ws.resource_id());
    assert_eq!(grant_self_log_analytics_reader(&printed("{}")), Ok(()));
    assert_eq!(
        grant_self_log_analytics_reader(&failed(" no rights \n")),
        Err("no rights".to_string())
    );
    assert_eq!(
        signed_in_principal_id(&printed("abc\n")),
        Ok("abc".to_string())
    );
    assert_eq!(
        signed_in_principal_id(&not_run(false, "x")),
        Err("az ad signed-in-user show failed: x".to_string())
    );
}

#[test]
fn sites_are_looked_up_by_plausible_names_only() {
    assert_eq!(find_site_args("sub", "-n"), None);
    let args = find_site_args("sub", "fn-orders").expect("a plausible name");
    assert_eq!(args[3], "fn-orders");
    assert_eq!(args[7], "sub");
    assert_eq!(
        find_site(&printed(r#"["/subscriptions/x","/subscriptions/y"]"#)),
        Some("/subscriptions/x".to_string())
    );
    assert_eq!(find_site(&printed("[]")), None);
    assert_eq!(find_site(&printed("junk")), None);
    assert_eq!(find_site(&failed("no")), None);
    assert_eq!(find_site(&not_run(true, "no")), None);
    assert_eq!(
        site_from(&printed(""), &Ok(vec!["a".to_string()])),
        Some("a".to_string())
    );
    assert_eq!(
        references_url("/subscriptions/x"),
        "https://management.azure.com/subscriptions/x/config/configreferences/appsettings?api-version=2022-03-01"
    );
    assert_eq!(workspace_list_args("sub")[5], "sub");
}

#[test]
fn only_unresolved_references_are_reported() {
    let body = r#"{"properties":{"a":{"status":"Resolved"},"b":{"status":"Denied"}}}"#;
    let read = site_key_vault_refs("app", &printed(body)).expect("references");
    assert_eq!(read.len(), 2);
    assert_eq!(
        references_from("app", &printed(""), &Ok(json(body))),
        Ok(parse_config_references("app", &json(body)))
    );
    assert_eq!(
        site_key_vault_refs("app", &not_run(false, "x")),
        Err("az rest failed: x".to_string())
    );
    assert_eq!(
        site_key_vault_refs("app", &failed("denied ")),
        Err("denied".to_string())
    );
    assert!(site_key_vault_refs("app", &printed("{"))
        .unwrap_err()
        .starts_with("parse: "));
    let bad = unresolved_key_vault_refs(&vec![Ok(read), Err("unreadable".to_string())]);
    assert_eq!(bad.len(), 1);
    assert_eq!(bad[0].setting, "b");
}

#[test]
fn an_expired_session_is_reported_as_that() {
    let text = " AADSTS700082: The refresh token has EXPIRED due to inactivity.\n";
    let account = AzAccount {
        name: "Contoso".into(),
        id: "s1".into(),
    };
    assert_eq!(
        check_login(&failed(text), Some(account)),
        AzLoginState::Expired {
            account: "Contoso".into(),
            message: text.trim().into(),
        }
    );
    assert_eq!(
        check_login(&failed(text), None),
        AzLoginState::Expired {
            account: String::new(),
            message: text.trim().into(),
        }
    );
    let denied =
        absorb_workspaces(WorkspaceScan::default(), "s1", &failed("denied"), Ok(vec![])).unwrap();
    assert!(!any_expired(&denied.errors));
    let expired = absorb_workspaces(denied, "s2", &failed(text), Ok(vec![])).unwrap();
    assert!(any_expired(&expired.errors));
    assert!(expired.errors[1].expired && !expired.errors[0].expired);
    let after = absorb_workspaces(expired, "s3", &printed("[]"), Ok(vec![])).unwrap();
    assert!(any_expired(&after.errors));
}
