//! Following herdr's focused tab.

use sling::names::NameMap;
use sling::watch::{change_from_fields, decide, is_focus_event, is_tab_focused, workspace_changed, Action};

fn counts(list: &[(&str, usize)]) -> NameMap<usize> {
    let mut m = NameMap::new();
    for (w, n) in list {
        m.insert(w.to_string(), *n);
    }
    m
}

#[test]
fn reads_an_aerospace_workspace_change() {
    let line = r#"{"_event":"focused-workspace-changed","prevWorkspace":"M","workspace":"t-mail"}"#;
    assert_eq!(workspace_changed(line).as_deref(), Some("t-mail"));
}

#[test]
fn ignores_other_aerospace_events() {
    assert!(workspace_changed(r#"{"_event":"focus-changed","windowId":28218,"workspace":"M"}"#).is_none());
    assert!(workspace_changed(r#"{"_event":"mode-changed","mode":"main"}"#).is_none());
    assert!(workspace_changed("not json").is_none());
}

#[test]
fn recognises_a_pushed_tab_focus() {
    let event = r#"{"data":{"tab_id":"w7:tA","type":"tab_focused","workspace_id":"w7"},"event":"tab_focused"}"#;
    assert!(is_tab_focused(event));
}

#[test]
fn ignores_the_acknowledgement_and_other_events() {
    assert!(!is_tab_focused(r#"{"id":"sling-watch","result":{"type":"subscription_started"}}"#));
    assert!(!is_tab_focused(r#"{"event":"pane_focused","data":{}}"#));
    assert!(!is_tab_focused("not json"));
    assert!(!is_tab_focused(""));
}

#[test]
fn follows_a_settled_tab_to_a_workspace_with_windows() {
    let action = decide(
        Some("t-mail"),
        Some("t-mail"),
        "infra",
        &counts(&[("infra", 40), ("t-mail", 2)]),
    );
    assert_eq!(action, Action::Switch("t-mail".into()));
}

#[test]
fn refuses_to_show_an_empty_workspace() {
    let action = decide(Some("t-forms"), Some("t-forms"), "infra", &counts(&[("infra", 40)]));
    assert_eq!(action, Action::Hold("that task holds no windows yet"));
}

#[test]
fn waits_for_a_tab_to_settle() {
    let seen = counts(&[("t-mail", 2), ("t-pair", 1)]);
    assert_eq!(decide(Some("t-pair"), Some("t-mail"), "infra", &seen), Action::Hold("still moving"));
    assert_eq!(decide(Some("t-pair"), Some("t-pair"), "infra", &seen), Action::Switch("t-pair".into()));
}

#[test]
fn does_nothing_when_already_on_that_workspace() {
    let action = decide(Some("t-mail"), Some("t-mail"), "t-mail", &counts(&[("t-mail", 2)]));
    assert_eq!(action, Action::Hold("already there"));
}

#[test]
fn does_nothing_without_a_focused_tab() {
    assert_eq!(decide(None, None, "infra", &counts(&[])), Action::Hold("no focused herdr tab"));
}

#[test]
fn a_workspace_counted_at_zero_is_still_empty() {
    let action = decide(Some("t-x"), Some("t-x"), "infra", &counts(&[("t-x", 0)]));
    assert_eq!(action, Action::Hold("that task holds no windows yet"));
}

#[test]
fn the_workspace_is_read_out_of_the_json_not_the_line() {
    // A workspace that is not a string, or an empty one, names nothing.
    assert!(workspace_changed(r#"{"_event":"focused-workspace-changed","workspace":7}"#).is_none());
    assert!(workspace_changed(r#"{"_event":"focused-workspace-changed","workspace":""}"#).is_none());
    assert_eq!(
        workspace_changed(r#"{ "workspace" : "a b" , "_event" : "focused-workspace-changed" }"#).as_deref(),
        Some("a b")
    );
}

#[test]
fn only_a_workspace_change_naming_a_workspace_counts() {
    let s = |x: &str| Some(x.to_string());
    assert_eq!(change_from_fields(s("focused-workspace-changed"), s("t-mail")), s("t-mail"));
    assert_eq!(change_from_fields(s("focused-workspace-changed"), s("")), None);
    assert_eq!(change_from_fields(s("focus-changed"), s("t-mail")), None);
    assert_eq!(change_from_fields(None, s("t-mail")), None);
    assert!(is_focus_event(s("tab_focused")));
    assert!(!is_focus_event(s("tab.focused")));
    assert!(!is_focus_event(None));
}
