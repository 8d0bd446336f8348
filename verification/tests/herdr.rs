//! herdr's tabs as tasks.

use sling::herdr::{parse_focused, parse_tabs, tab_for, HerdrTab};

fn tab(label: &str, tab_id: &str, focused: bool) -> HerdrTab {
    HerdrTab { label: label.into(), focused, tab_id: tab_id.into() }
}

/// The tabs of the sample reply:
/// ac/app, t/gant-workload (focused), 1, arb/lsp, a blank label, ac/app again.
fn sample() -> Vec<HerdrTab> {
    vec![
        tab("ac/app", "w3:t1", false),
        tab("t/gant-workload", "w7:t4", true),
        tab("1", "w5:t1", false),
        tab("arb/lsp", "w7:t8", false),
        tab("", "w9:t1", false),
        tab("ac/app", "w3:t9", false),
    ]
}

#[test]
fn turns_tab_labels_into_workspace_names() {
    assert_eq!(parse_tabs(&sample()), vec!["ac-app", "t-gant-workload", "arb-lsp"]);
}

#[test]
fn finds_the_focused_tab() {
    assert_eq!(parse_focused(&sample()).as_deref(), Some("t-gant-workload"));
}

#[test]
fn no_focused_tab_is_not_an_error() {
    let none: Vec<HerdrTab> =
        sample().into_iter().map(|t| HerdrTab { focused: false, ..t }).collect();
    assert!(parse_focused(&none).is_none());
    // A reply that cannot be read holds no tabs.
    assert!(parse_focused(&[]).is_none());
}

#[test]
fn an_unnamed_focused_tab_names_no_task() {
    let numbered = vec![tab("1", "", true)];
    assert!(parse_focused(&numbered).is_none());
}

#[test]
fn finds_the_tab_that_names_a_task() {
    let found = tab_for(&sample(), "t-gant-workload").expect("there is one");
    assert_eq!(found.id, "w7:t4");
    assert!(found.focused);

    let other = tab_for(&sample(), "arb-lsp").expect("there is one");
    assert_eq!(other.id, "w7:t8");
    assert!(!other.focused);
}

#[test]
fn a_task_with_no_tab_is_ordinary() {
    assert!(tab_for(&sample(), "house").is_none());
    assert!(tab_for(&[], "t-mail").is_none());
}

#[test]
fn no_tabs_name_no_tasks() {
    assert!(parse_tabs(&[]).is_empty());
    let no_tabs: Vec<HerdrTab> = Vec::new();
    assert!(parse_tabs(&no_tabs).is_empty());
}

#[test]
fn the_first_tab_with_an_id_wins() {
    let found = tab_for(&sample(), "ac-app").expect("there is one");
    assert_eq!(found.id, "w3:t1");
    assert_eq!(found.task, "ac-app");
    // A tab without an id cannot be focused, so it names nothing.
    assert!(tab_for(&[tab("ac/app", "", false)], "ac-app").is_none());
}

#[test]
fn a_numbered_label_with_spaces_is_still_unnamed() {
    assert!(parse_tabs(&[tab(" 12 ", "a", false), tab("  ", "b", false)]).is_empty());
}
