//! The managed block in AeroSpace's config.

use sling::aeroconf::{declares_version_2, with_workspaces, BEGIN, END};

fn names(list: &[&str]) -> Vec<String> {
    list.iter().map(|s| s.to_string()).collect()
}

#[test]
fn adds_a_block_when_there_is_none() {
    let out = with_workspaces("start-at-login = false\n", &names(&["t-mail"]));
    assert!(out.starts_with("start-at-login = false"));
    assert!(out.contains("persistent-workspaces = [\n  \"t-mail\",\n]"));
    assert!(out.contains(BEGIN) && out.contains(END));
}

#[test]
fn replaces_only_its_own_block() {
    let before = format!(
        "before = 1\n\n{BEGIN}\npersistent-workspaces = [\n  \"old\",\n]\n{END}\n\nafter = 2\n"
    );
    let out = with_workspaces(&before, &names(&["new-one", "new-two"]));
    assert!(out.contains("before = 1"), "{out}");
    assert!(out.contains("after = 2"), "{out}");
    assert!(out.contains("\"new-one\""), "{out}");
    assert!(!out.contains("\"old\""), "{out}");
    assert_eq!(out.matches(BEGIN).count(), 1);
}

#[test]
fn absorbs_a_hand_written_list_rather_than_duplicating_it() {
    let before = "x = 1\npersistent-workspaces = [\n  \"old\",\n]\n\n[mode.main.binding]\n";
    let out = with_workspaces(before, &names(&["t-mail"]));
    assert_eq!(out.matches("persistent-workspaces").count(), 1, "{out}");
    assert!(!out.contains("\"old\""), "{out}");
    assert!(out.contains("x = 1") && out.contains("[mode.main.binding]"), "{out}");
}

#[test]
fn absorbs_a_single_line_list_too() {
    let out = with_workspaces("persistent-workspaces = [\"old\"]\nx = 1\n", &names(&["a"]));
    assert_eq!(out.matches("persistent-workspaces").count(), 1, "{out}");
    assert!(out.contains("x = 1"), "{out}");
}

#[test]
fn goes_above_the_first_table_header() {
    let before = "start-at-login = false\n\n[mode.main.binding]\nalt-1 = 'workspace 1'\n";
    let out = with_workspaces(before, &names(&["t-mail"]));

    let block_at = out.find(BEGIN).expect("block written");
    let section_at = out.find("[mode.main.binding]").expect("section kept");
    assert!(block_at < section_at, "{out}");
    assert!(out.contains("start-at-login = false"), "{out}");
    assert!(out.contains("alt-1 = 'workspace 1'"), "{out}");
}

#[test]
fn rewriting_twice_changes_nothing_the_second_time() {
    let once = with_workspaces("x = 1\n", &names(&["a", "b"]));
    let twice = with_workspaces(&once, &names(&["a", "b"]));
    assert_eq!(once, twice);
}

#[test]
fn notices_whether_the_option_will_be_honoured() {
    assert!(declares_version_2("config-version = 2\n"));
    assert!(!declares_version_2("start-at-login = false\n"));
    assert!(!declares_version_2("# config-version = 2\n"));
}

#[test]
fn a_config_with_no_table_gets_the_block_at_the_end() {
    let out = with_workspaces("a = 1\n\n\n", &names(&["x", "y"]));
    assert_eq!(
        out,
        format!("a = 1\n\n{BEGIN}\npersistent-workspaces = [\n  \"x\",\n  \"y\",\n]\n{END}\n")
    );
}

#[test]
fn the_block_goes_exactly_above_the_header() {
    let out = with_workspaces("a = 1\n[b]\nc = 2\n", &names(&["x"]));
    assert_eq!(
        out,
        format!("a = 1\n{BEGIN}\npersistent-workspaces = [\n  \"x\",\n]\n{END}\n\n[b]\nc = 2\n")
    );
}

#[test]
fn an_empty_list_still_writes_a_block() {
    let out = with_workspaces("", &[]);
    assert_eq!(out, format!("\n\n{BEGIN}\npersistent-workspaces = [\n]\n{END}\n"));
}

#[test]
fn a_second_sync_leaves_what_a_single_one_would() {
    let fresh = "start-at-login = false\npersistent-workspaces = [\"old\"]\n\n[mode.main.binding]\nalt-1 = 'workspace 1'\n";
    let first = with_workspaces(fresh, &names(&["a", "b"]));
    let again = with_workspaces(&first, &names(&["c"]));
    assert_eq!(again, with_workspaces(fresh, &names(&["c"])));
    assert!(!again.contains("\"a\""), "{again}");

    let bare = "x = 1   \n\n\n";
    let first = with_workspaces(bare, &names(&["t-mail"]));
    assert_eq!(with_workspaces(&first, &names(&["t-mail"])), first);
    assert_eq!(
        with_workspaces(&first, &names(&["t-web"])),
        with_workspaces(bare, &names(&["t-web"]))
    );
}

#[test]
fn a_config_that_already_holds_a_block_settles_after_one_sync() {
    let held = format!(
        "a = 1\n{BEGIN}\npersistent-workspaces = [\n  \"old\",\n]\n{END}\n\n[mode.main.binding]\nalt-1 = 'workspace 1'\n"
    );
    let once = with_workspaces(&held, &names(&["x", "y"]));
    assert!(!once.contains("\"old\""), "{once}");
    assert!(once.contains("alt-1 = 'workspace 1'"), "{once}");
    let twice = with_workspaces(&once, &names(&["x", "y"]));
    assert_eq!(once, twice);
}

#[test]
fn a_hand_written_array_beside_the_block_is_absorbed_once() {
    let held = format!(
        "a = 1\npersistent-workspaces = [\n  \"mine\",\n]\n{BEGIN}\npersistent-workspaces = [\n  \"old\",\n]\n{END}\n\n[mode.main.binding]\n"
    );
    let once = with_workspaces(&held, &names(&["x"]));
    assert!(!once.contains("\"mine\""), "{once}");
    assert_eq!(once.matches("persistent-workspaces").count(), 1, "{once}");
    let twice = with_workspaces(&once, &names(&["x"]));
    assert_eq!(once, twice);
}
