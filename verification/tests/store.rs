//! What outlives a single sling.

use sling::store::{
    file_placement, iso8601, placement_from_fields, placements_from, FollowList, Layout, NameCache,
    Pins, Placed,
};

#[test]
fn formats_known_instants() {
    assert_eq!(iso8601(0), "1970-01-01T00:00:00Z");
    assert_eq!(iso8601(1_000_000_000), "2001-09-09T01:46:40Z");
    // A leap day, which is where naive date maths goes wrong.
    assert_eq!(iso8601(1_709_164_800), "2024-02-29T00:00:00Z");
}

#[test]
fn formats_instants_before_the_epoch() {
    assert_eq!(iso8601(-1), "1969-12-31T23:59:59Z");
    assert_eq!(iso8601(-86_400 * 365), "1969-01-01T00:00:00Z");
    assert_eq!(iso8601(951_782_400), "2000-02-29T00:00:00Z");
    // Year zero, and a year before it, as `{:04}` writes them.
    assert_eq!(iso8601(-62_167_219_200), "0000-01-01T00:00:00Z");
    assert_eq!(iso8601(-62_198_755_200), "-001-01-01T00:00:00Z");
}

const LOG: &str = r#"
{"outcome":"moved","to":"ac-app","window":{"app":"Brave","title":"Framing"}}
{"outcome":"cancelled","window":{"app":"Brave","title":"Framing"}}
{"outcome":"moved","to":"t-pair","window":{"app":"Brave","title":"Framing"}}
{"outcome":"moved","to":"mail","window":{"app":"Mail","title":"Inbox"}}
{"outcome":"heading","to":"nowhere","window":{"app":"X","title":"Y"}}
not json
"#;

#[test]
fn the_last_deliberate_placement_wins() {
    let placed = placements_from(LOG);
    let found: Vec<(&str, &str)> =
        placed.iter().map(|((a, _t), w)| (a.as_str(), w.as_str())).collect();
    assert!(found.contains(&("Brave", "t-pair")), "{found:?}");
    assert!(!found.iter().any(|(_, w)| *w == "ac-app"), "superseded: {found:?}");
    assert!(found.contains(&("Mail", "mail")));
}

#[test]
fn only_moves_count_as_placements() {
    let placed = placements_from(LOG);
    assert_eq!(placed.len(), 2, "{placed:?}");
}

#[test]
fn survives_a_log_it_cannot_read() {
    assert!(placements_from("").is_empty());
    assert!(placements_from("garbage\n{}\n").is_empty());
}

#[test]
fn a_replaced_placement_moves_to_the_end() {
    let log = [
        r#"{"outcome":"moved","to":"a","window":{"app":"One","title":"1"}}"#,
        r#"{"outcome":"moved","to":"b","window":{"app":"Two","title":"2"}}"#,
        r#"{"outcome":"moved","to":"c","window":{"app":"One","title":"1"}}"#,
        r#"{"outcome":"moved","to":"d","window":{"app":"","title":""}}"#,
    ]
    .join("\n");
    let placed = placements_from(&log);
    assert_eq!(
        placed,
        vec![
            (("Two".to_string(), "2".to_string()), "b".to_string()),
            (("One".to_string(), "1".to_string()), "c".to_string()),
        ]
    );
}

fn cache(list: &[&str]) -> NameCache {
    NameCache { workspaces: list.iter().map(|s| s.to_string()).collect() }
}

fn names(list: &[&str]) -> Vec<String> {
    list.iter().map(|s| s.to_string()).collect()
}

#[test]
fn merging_adds_new_names_in_order_and_says_so() {
    let mut c = cache(&["t-mail"]);
    assert!(c.merge(&names(&["infra", "", "t-mail", "ac-app", "infra"])));
    assert_eq!(c.workspaces, names(&["ac-app", "infra", "t-mail"]));
}

#[test]
fn merging_the_same_names_again_changes_nothing() {
    let mut c = cache(&["zz", "aa"]);
    assert!(c.merge(&names(&["mm"])));
    let once = c.workspaces.clone();
    assert!(!c.merge(&names(&["mm"])));
    assert_eq!(c.workspaces, once);
    // Nothing new leaves even an unsorted cache as it was.
    let mut d = cache(&["zz", "aa"]);
    assert!(!d.merge(&names(&["aa", ""])));
    assert_eq!(d.workspaces, names(&["zz", "aa"]));
}

#[test]
fn toggling_a_window_twice_puts_the_list_back() {
    let mut f = FollowList::default();
    assert!(f.toggle("7", "Ghostty", "herdr"));
    assert!(f.contains("7"));
    assert_eq!(f.ids(), names(&["7"]));
    assert!(!f.toggle("7", "Ghostty", "herdr"));
    assert!(!f.contains("7"));
    assert!(f.windows.is_empty());
}

#[test]
fn toggling_an_application_twice_puts_the_list_back() {
    let mut f = FollowList::default();
    assert!(f.toggle_app("com.apple.finder", "Finder"));
    assert!(f.follows_app("com.apple.finder"));
    assert!(!f.follows_app(""));
    assert_eq!(f.bundles(), names(&["com.apple.finder"]));
    assert!(!f.toggle_app("com.apple.finder", "Finder"));
    assert!(!f.follows_app("com.apple.finder"));
    assert!(f.apps.is_empty());
}

#[test]
fn grounding_is_recorded_once_and_undone_by_ungrounding() {
    let mut f = FollowList::default();
    assert!(f.ground("9", "Finder", "Downloads"));
    assert!(!f.ground("9", "Finder", "Downloads"));
    assert_eq!(f.grounded_ids(), names(&["9"]));
    assert!(f.unground("9"));
    assert!(!f.unground("9"));
    assert!(f.grounded.is_empty());
}

#[test]
fn toggling_a_pin_twice_puts_the_list_back() {
    let mut p = Pins { tasks: names(&["a", "b"]) };
    assert!(p.toggle("c"));
    assert_eq!(p.tasks, names(&["a", "b", "c"]));
    assert!(!p.toggle("c"));
    assert_eq!(p.tasks, names(&["a", "b"]));
    assert!(!p.toggle("a"));
    assert_eq!(p.tasks, names(&["b"]));
}

#[test]
fn a_layout_without_app_or_title_matches_only_by_id() {
    let saved = Layout {
        at: String::new(),
        windows: vec![Placed { id: "1".into(), workspace: "w".into(), app: "".into(), title: "".into() }],
    };
    let live = vec![("2".to_string(), "".to_string(), "".to_string())];
    assert!(saved.resolve(&live).is_empty());
}

#[test]
fn pruning_forgets_only_the_windows_that_are_gone() {
    let mut f = FollowList::default();
    f.toggle("1", "Ghostty", "herdr");
    f.toggle("2", "WhatsApp", "WhatsApp");
    f.toggle("3", "Zed", "notes");
    assert_eq!(f.prune(&names(&["3", "1", "9"])), 1);
    assert_eq!(f.ids(), names(&["1", "3"]));
    assert_eq!(f.prune(&names(&["1", "3"])), 0);
}

#[test]
fn only_a_move_that_names_its_window_places_it() {
    let s = |x: &str| Some(x.to_string());
    assert_eq!(
        placement_from_fields(s("moved"), s("t-mail"), s("Zed"), s("notes")),
        Some((("Zed".to_string(), "notes".to_string()), "t-mail".to_string()))
    );
    assert_eq!(placement_from_fields(s("cancelled"), s("t-mail"), s("Zed"), s("notes")), None);
    assert_eq!(placement_from_fields(None, s("t-mail"), s("Zed"), s("notes")), None);
    assert_eq!(placement_from_fields(s("moved"), None, s("Zed"), s("notes")), None);
    assert_eq!(placement_from_fields(s("moved"), s("t-mail"), s(""), s("")), None);
    assert_eq!(
        placement_from_fields(s("moved"), s("t-mail"), s(""), s("notes")),
        Some((("".to_string(), "notes".to_string()), "t-mail".to_string()))
    );
}

#[test]
fn filing_a_placement_again_moves_it_to_the_end() {
    let key = |a: &str, t: &str| (a.to_string(), t.to_string());
    let mut placed = vec![(key("Zed", "a"), "one".to_string()), (key("Brave", "b"), "two".to_string())];
    file_placement(&mut placed, (key("Zed", "a"), "three".to_string()));
    assert_eq!(
        placed,
        vec![(key("Brave", "b"), "two".to_string()), (key("Zed", "a"), "three".to_string())]
    );
}

#[test]
fn a_merge_holds_what_was_held_and_every_named_task() {
    let mut c = cache(&["b", "a"]);
    assert!(c.merge(&names(&["", "c", "a", "d"])));
    let mut held = c.workspaces.clone();
    held.sort();
    assert_eq!(held, names(&["a", "b", "c", "d"]));
    assert!(!c.workspaces.iter().any(|w| w.is_empty()));
}
