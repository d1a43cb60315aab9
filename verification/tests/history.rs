use ais_analytics::az::Workspace;
use ais_analytics::history::{
    clear, forget_workspace, insert, insert_workspace, load, load_rules, load_workspaces, record,
    record_workspace, save_rules, Entry, Store, MAX_ENTRIES, MAX_WORKSPACES,
};
use ais_analytics::trace::ErrorRule;

fn entry(value: &str) -> Entry {
    Entry {
        value: value.into(),
        key: "OperationId".into(),
    }
}

#[test]
fn most_recent_comes_first() {
    let mut list = Vec::new();
    insert(&mut list, entry("a"));
    insert(&mut list, entry("b"));
    assert_eq!(values(&list), vec!["b", "a"]);
}

#[test]
fn retracing_a_value_moves_it_up_instead_of_duplicating() {
    let mut list = Vec::new();
    for v in ["a", "b", "c"] {
        insert(&mut list, entry(v));
    }
    insert(&mut list, entry("a"));
    assert_eq!(values(&list), vec!["a", "c", "b"]);
}

/// Re-tracing under a different key updates the annotation rather than
/// leaving two chips that look identical.
#[test]
fn a_repeated_value_keeps_only_its_latest_key() {
    let mut list = vec![entry("a")];
    insert(
        &mut list,
        Entry {
            value: "a".into(),
            key: "TraceId".into(),
        },
    );
    assert_eq!(list.len(), 1);
    assert_eq!(list[0].key, "TraceId");
}

#[test]
fn the_oldest_entry_falls_off_the_end() {
    let mut list = Vec::new();
    for v in ["a", "b", "c", "d", "e", "f"] {
        insert(&mut list, entry(v));
    }
    assert_eq!(list.len(), MAX_ENTRIES);
    assert_eq!(values(&list), vec!["f", "e", "d", "c", "b"]);
}

fn values(list: &[Entry]) -> Vec<&str> {
    list.iter().map(|e| e.value.as_str()).collect()
}

fn workspace(name: &str, id: &str) -> Workspace {
    Workspace {
        name: name.into(),
        resource_group: "rg".into(),
        customer_id: id.into(),
        subscription_id: "sub".into(),
    }
}

#[test]
fn reopening_a_workspace_moves_it_to_the_front() {
    let mut list = Vec::new();
    for (n, id) in [("a", "ia"), ("b", "ib"), ("c", "ic")] {
        insert_workspace(&mut list, workspace(n, id));
    }
    insert_workspace(&mut list, workspace("a", "ia"));
    let names: Vec<&str> = list.iter().map(|w| w.name.as_str()).collect();
    assert_eq!(names, vec!["a", "c", "b"]);
}

/// Two subscriptions can hold workspaces with the same display name;
/// only the GUID identifies one.
#[test]
fn workspaces_are_deduped_by_id_not_name() {
    let mut list = Vec::new();
    insert_workspace(&mut list, workspace("shared", "id-one"));
    insert_workspace(&mut list, workspace("shared", "id-two"));
    assert_eq!(list.len(), 2);
}

#[test]
fn the_workspace_list_is_capped() {
    let mut list = Vec::new();
    for i in 0..8 {
        insert_workspace(&mut list, workspace(&format!("a{i}"), &format!("i{i}")));
    }
    assert_eq!(list.len(), MAX_WORKSPACES);
    assert_eq!(list[0].name, "a7");
}

fn rule(field: &str, value: &str) -> ErrorRule {
    ErrorRule {
        field: field.into(),
        display: field.into(),
        value: value.into(),
    }
}

#[test]
fn what_is_recorded_is_what_is_loaded() {
    let mut store = Store::default();
    assert!(load(&store, "ws").is_empty());
    record(&mut store, "ws", entry("a"));
    record(&mut store, "other", entry("x"));
    let shown = record(&mut store, "ws", entry("b"));
    assert_eq!(values(&shown), vec!["b", "a"]);
    assert_eq!(load(&store, "ws"), shown);
    // Each workspace has its own.
    assert_eq!(values(&load(&store, "other")), vec!["x"]);
    // Recording the same thing again changes nothing.
    assert_eq!(record(&mut store, "ws", entry("b")), shown);

    assert!(clear(&mut store, "ws").is_empty());
    assert!(load(&store, "ws").is_empty());
    assert_eq!(values(&load(&store, "other")), vec!["x"]);
}

#[test]
fn values_stay_while_there_is_room_for_them() {
    let mut list: Vec<Entry> = ["a", "b", "c", "d", "e"].iter().map(|v| entry(v)).collect();
    insert(&mut list, entry("c"));
    assert_eq!(values(&list), vec!["c", "a", "b", "d", "e"]);
}

#[test]
fn forgotten_workspaces_are_gone() {
    let mut store = Store::default();
    record_workspace(&mut store, &workspace("a", "ia"));
    let shown = record_workspace(&mut store, &workspace("b", "ib"));
    assert_eq!(load_workspaces(&store), shown);
    assert_eq!(shown[0].name, "b");
    let left = forget_workspace(&mut store, "ib");
    assert_eq!(left.len(), 1);
    assert_eq!(left[0].customer_id, "ia");
    assert_eq!(load_workspaces(&store), left);
    assert_eq!(forget_workspace(&mut store, "nosuch").len(), 1);
}

#[test]
fn rules_are_replaced_as_a_whole() {
    let mut store = Store::default();
    let first = vec![rule("resultcode", "500"), rule("success", "false")];
    save_rules(&mut store, "ws", &first);
    assert_eq!(load_rules(&store, "ws"), first);
    assert!(load_rules(&store, "other").is_empty());
    let second = vec![rule("level", "error")];
    save_rules(&mut store, "ws", &second);
    assert_eq!(load_rules(&store, "ws"), second);
    save_rules(&mut store, "ws", &vec![]);
    assert!(load_rules(&store, "ws").is_empty());
    assert!(store.error_rules.is_empty());
}
