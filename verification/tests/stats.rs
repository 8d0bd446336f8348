//! The summary of the action log.

use sling::stats::{ranked, recent_from_fields, recent_line, tally, Tally};

const LOG: &str = r#"{"at":"t1","outcome":"moved","to":"b","from":"x","window":{"app":"Zed"}}
not json
{"at":"t2","outcome":"moved","to":"a"}
{"at":"t3","outcome":"cancelled"}
{"at":"t4","to":"b"}
"#;

#[test]
fn counts_outcomes_and_destinations() {
    let t = tally(LOG);
    assert_eq!(t.entries.len(), 4);
    assert_eq!(t.outcomes.names(), vec!["?", "cancelled", "moved"]);
    assert_eq!(t.outcomes.get("moved"), Some(&2));
    assert_eq!(t.outcomes.get("?"), Some(&1));
    assert_eq!(t.targets.get("b"), Some(&2));
    assert_eq!(t.targets.get("a"), Some(&1));
}

#[test]
fn the_busiest_destination_comes_first() {
    let t = tally(LOG);
    assert_eq!(ranked(&t.targets), vec![("b".to_string(), 2), ("a".to_string(), 1)]);
    let even = tally("{\"to\":\"z\"}\n{\"to\":\"y\"}\n");
    assert_eq!(ranked(&even.targets), vec![("y".to_string(), 1), ("z".to_string(), 1)]);
}

#[test]
fn a_recent_line_says_what_it_can() {
    let t = tally(LOG);
    let first = recent_line(&t.entries[0]);
    assert_eq!(
        (first.at.as_str(), first.outcome.as_str(), first.app.as_str(), first.from.as_str(), first.to.as_str()),
        ("t1", "moved", "Zed", "x", "b")
    );
    let bare = recent_line(&t.entries[2]);
    assert_eq!(
        (bare.at.as_str(), bare.outcome.as_str(), bare.app.as_str(), bare.from.as_str(), bare.to.as_str()),
        ("t3", "cancelled", "?", "?", "-")
    );
}

#[test]
fn an_empty_log_summarises_to_nothing() {
    let t = tally("");
    assert!(t.entries.is_empty());
    assert!(t.outcomes.is_empty());
    assert!(ranked(&t.targets).is_empty());
}

#[test]
fn an_entry_is_counted_under_what_it_says() {
    let mut t = Tally::new();
    t.record("a".to_string(), Some("moved".to_string()), Some("t-forms".to_string()));
    t.record("b".to_string(), None, Some("t-forms".to_string()));
    t.record("c".to_string(), Some("moved".to_string()), None);
    assert_eq!(t.entries, vec!["a", "b", "c"]);
    assert_eq!(t.outcomes.get("moved"), Some(&2));
    assert_eq!(t.outcomes.get("?"), Some(&1));
    assert_eq!(t.targets.names(), vec!["t-forms"]);
    assert_eq!(t.targets.get("t-forms"), Some(&2));
}

#[test]
fn a_missing_field_is_stood_in_for() {
    let r = recent_from_fields(None, Some("moved".to_string()), None, None, None);
    assert_eq!(r.at, "");
    assert_eq!(r.outcome, "moved");
    assert_eq!(r.app, "?");
    assert_eq!(r.from, "?");
    assert_eq!(r.to, "-");
}
