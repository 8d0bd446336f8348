//! The menu, the naming rules and the window list.

use sling::names::NameMap;
use sling::picker::{
    build_menu, build_window_menu, group_workspaces, occupancy_of, parse_window, sanitise_workspace,
    tab_title, Occupancy, Row, Window, NEW, SEP, STACK_MAX,
};
use sling::picker::{render_row, row_id_for};

fn labels() -> NameMap<String> {
    let mut m = NameMap::new();
    m.insert("t".to_string(), "tyto".to_string());
    m.insert("ac".to_string(), "art corner".to_string());
    m
}

fn names(list: &[&str]) -> Vec<String> {
    list.iter().map(|s| s.to_string()).collect()
}

fn held(list: &[(&str, usize)]) -> NameMap<Occupancy> {
    let mut m = NameMap::new();
    for (w, n) in list {
        m.insert(w.to_string(), Occupancy { count: *n, stack: Vec::new() });
    }
    m
}

fn win(workspace: &str, app: &str, bundle: &str) -> Window {
    Window {
        id: format!("{workspace}-{app}"),
        workspace: workspace.into(),
        monitor: "1".into(),
        app: app.into(),
        bundle: bundle.into(),
        title: String::new(),
    }
}

fn stack_of<'a>(m: &'a NameMap<Occupancy>, ws: &str) -> &'a Occupancy {
    m.get(ws).expect("the workspace is held")
}

#[test]
fn keeps_pipes_that_belong_to_the_title() {
    let w = parse_window("11513|infra|1|Brave Browser|com.brave.Browser|Inbox | Mail - Brave")
        .unwrap();
    assert_eq!(w.id, "11513");
    assert_eq!(w.workspace, "infra");
    assert_eq!(w.monitor, "1");
    assert_eq!(w.app, "Brave Browser");
    assert_eq!(w.bundle, "com.brave.Browser");
    assert_eq!(w.title, "Inbox | Mail - Brave");
}

#[test]
fn tolerates_a_window_with_no_title() {
    let w = parse_window("19354|infra|1|Brave Browser|com.brave.Browser|").unwrap();
    assert_eq!(w.title, "");
    assert_eq!(w.label(), "Brave Browser");
}

#[test]
fn rejects_rows_that_are_not_windows() {
    assert!(parse_window("").is_none());
    assert!(parse_window("   ").is_none());
    assert!(parse_window("|infra|1|Brave|com.brave.Browser|x").is_none());
}

#[test]
fn translates_the_herdr_spelling_of_a_task() {
    assert_eq!(sanitise_workspace("t/forms"), "t-forms");
    assert_eq!(sanitise_workspace("ac/new thing"), "ac-new-thing");
}

#[test]
fn collapses_runs_and_trims_edges() {
    assert_eq!(sanitise_workspace("House Hunt 2026"), "House-Hunt-2026");
    assert_eq!(sanitise_workspace("  spaced  "), "spaced");
    assert_eq!(sanitise_workspace("weird$name!"), "weird-name");
    assert_eq!(sanitise_workspace("a // b"), "a-b");
    assert_eq!(sanitise_workspace("///"), "");
}

#[test]
fn leaves_a_name_that_is_already_legal_alone() {
    assert_eq!(sanitise_workspace("t-gant-workload"), "t-gant-workload");
    assert_eq!(sanitise_workspace("me-watson"), "me-watson");
}

#[test]
fn groups_configured_prefixes_first_then_the_rest() {
    let grouped = group_workspaces(
        &names(&["zz-late", "ac-app", "house", "t-forms", "t-pair"]),
        &names(&["t", "ac"]),
        &labels(),
    );
    let headings: Vec<&str> = grouped.iter().map(|(h, _)| h.as_str()).collect();
    assert_eq!(headings, vec!["tyto", "art corner", "zz", "elsewhere"]);
    assert_eq!(grouped[0].1, names(&["t-forms", "t-pair"]));
    assert_eq!(grouped[3].1, names(&["house"]));
}

const BRAVE: &str = "com.brave.Browser";
const GHOSTTY: &str = "com.mitchellh.ghostty";
const ZED: &str = "dev.zed.Zed";
const OFFICE: &str = "org.libreoffice.script";

#[test]
fn a_browser_row_says_what_the_tab_says() {
    assert_eq!(
        tab_title(
            "Brave Browser",
            "easyJet | Flights & holidays ✈️ Book low-cost airline tickets - Brave – justinl@example.com"
        ),
        "easyJet | Flights & holidays ✈️ Book low-cost airline tickets"
    );
    assert_eq!(
        tab_title("Google Chrome", "My Tasks - Google Chrome – Justin (example.uk)"),
        "My Tasks"
    );
    assert_eq!(
        tab_title("Brave Browser", "Shared-Christy-Justin - Dropbox - Brave – jl@example.com"),
        "Shared-Christy-Justin - Dropbox"
    );
}

#[test]
fn the_memory_warning_chromium_bolts_on_is_not_part_of_the_title() {
    assert_eq!(
        tab_title("Brave Browser", "My Tasks - High memory usage - 1.4 GB - Brave – justinl@example.com"),
        "My Tasks"
    );
    assert_eq!(
        tab_title(
            "Brave Browser",
            "Inbox (586) - justin@example.uk - Example Mail - High memory usage - 800 MB - Brave – justin@example.uk"
        ),
        "Inbox (586) - justin@example.uk - Example Mail"
    );
}

#[test]
fn a_title_that_is_not_a_browsers_is_left_exactly_alone() {
    assert_eq!(tab_title("Zed", "wp.dump — wp.dump"), "wp.dump — wp.dump");
    assert_eq!(tab_title("Ghostty", "MacBook-Pro.local: tyto"), "MacBook-Pro.local: tyto");
    assert_eq!(
        tab_title("LibreOffice", "Lawrence_Studios_2025_calendar_year.xlsx"),
        "Lawrence_Studios_2025_calendar_year.xlsx"
    );
    assert_eq!(
        tab_title("Brave Browser", "Reading about Safari - Safari – someone"),
        "Reading about Safari - Safari – someone"
    );
}

#[test]
fn the_subject_leads_with_the_window_not_the_application() {
    let row = Row::subject("Brave Browser", "Arty Vitals - Brave – justinl@example.com", BRAVE);
    assert_eq!(row.label, "Arty Vitals");
    assert_eq!(row.detail, None, "the application's name is the icon's job");

    let bare = Row::subject("\u{200e}WhatsApp", "", "net.whatsapp.WhatsApp");
    assert_eq!(bare.label, "\u{200e}WhatsApp");
}

#[test]
fn two_windows_left_alike_by_stripping_still_show_their_ids() {
    let windows = vec![
        Window {
            id: "239".into(),
            workspace: "1".into(),
            monitor: "1".into(),
            app: "Brave Browser".into(),
            bundle: BRAVE.into(),
            title: "My Tasks - High memory usage - 1.4 GB - Brave – a@b.c".into(),
        },
        Window {
            id: "4126".into(),
            workspace: "1".into(),
            monitor: "1".into(),
            app: "Brave Browser".into(),
            bundle: BRAVE.into(),
            title: "My Tasks - High memory usage - 972 MB - Brave – a@b.c".into(),
        },
    ];
    let menu = build_window_menu(&windows, "1", |_: &Window| false);
    let labels: Vec<&str> = menu.rows.iter().map(|r| r.label.as_str()).collect();
    assert_eq!(labels, vec!["My Tasks  [239]", "My Tasks  [4126]"]);
}

#[test]
fn the_stack_leads_with_the_application_that_is_unusual_here() {
    let held = occupancy_of(&[
        win("me-tax", "Brave Browser", BRAVE),
        win("me-tax", "Brave Browser", BRAVE),
        win("me-tax", "LibreOffice", OFFICE),
        win("me-tax", "Zed", ZED),
    ]);
    let me_tax = stack_of(&held, "me-tax");
    assert_eq!(me_tax.count, 4);
    assert_eq!(me_tax.stack, vec![ZED, OFFICE, BRAVE, BRAVE]);
}

#[test]
fn the_cap_only_ever_eats_duplicates() {
    let mut windows: Vec<Window> = (0..9).map(|_| win("1", "Brave Browser", BRAVE)).collect();
    windows.push(win("1", "System Settings", "com.apple.systempreferences"));
    let held = occupancy_of(&windows);
    let pile = stack_of(&held, "1");
    assert_eq!(pile.count, 10);
    assert_eq!(pile.stack.len(), STACK_MAX);
    assert_eq!(pile.stack[0], "com.apple.systempreferences");
    assert!(pile.stack[1..].iter().all(|b| b == BRAVE));
}

#[test]
fn a_workspace_holding_one_kind_of_thing_still_shows_its_weight() {
    let windows: Vec<Window> = (0..8).map(|_| win("t-taskedit", "Brave Browser", BRAVE)).collect();
    let held = occupancy_of(&windows);
    assert_eq!(stack_of(&held, "t-taskedit").stack, vec![BRAVE; STACK_MAX]);
}

#[test]
fn the_same_workspace_draws_the_same_stack_every_time() {
    let windows = vec![win("t-pair", "Ghostty", GHOSTTY), win("t-pair", "Zed", ZED)];
    let first = occupancy_of(&windows);
    let mut reversed = windows.clone();
    reversed.reverse();
    let second = occupancy_of(&reversed);
    assert_eq!(stack_of(&first, "t-pair").stack, stack_of(&second, "t-pair").stack);
    assert_eq!(stack_of(&first, "t-pair").stack, vec![GHOSTTY, ZED]);
}

#[test]
fn a_window_with_no_bundle_is_counted_but_not_drawn() {
    let held = occupancy_of(&[win("odd", "Something", ""), win("odd", "Ghostty", GHOSTTY)]);
    assert_eq!(stack_of(&held, "odd").count, 2);
    assert_eq!(stack_of(&held, "odd").stack, vec![GHOSTTY]);
}

#[test]
fn a_task_row_carries_the_icons_of_what_is_in_it() {
    let held = occupancy_of(&[
        win("ac-app", "Brave Browser", BRAVE),
        win("me-tax", "Zed", ZED),
        win("me-tax", "Brave Browser", BRAVE),
        win("me-tax", "Brave Browser", BRAVE),
    ]);
    let menu = build_menu(Some(&held), &[], &[], "ac-app", &names(&["ac"]), &labels(), &[]);
    let me_tax = menu.rows.iter().find(|r| r.id == "me-tax").expect("me-tax listed");
    assert_eq!(me_tax.stack, vec![ZED, BRAVE, BRAVE]);
    assert_eq!(me_tax.count, Some(3));
    let menu = build_menu(Some(&held), &names(&["ac-empty"]), &[], "ac-app", &[], &labels(), &[]);
    let empty = menu.rows.iter().find(|r| r.id == "ac-empty").expect("ac-empty listed");
    assert!(empty.stack.is_empty());
    assert_eq!(empty.count, None);
}

#[test]
fn a_wedged_aerospace_draws_no_icons_at_all() {
    let menu = build_menu(None, &[], &names(&["ac-shopify"]), "infra", &[], &labels(), &[]);
    assert!(menu.rows.iter().all(|r| r.stack.is_empty()));
}

#[test]
fn marks_where_the_window_is_and_what_already_has_windows() {
    let menu = build_menu(
        Some(&held(&[("infra", 40), ("ac-app", 2)])),
        &names(&["ac-shopify"]),
        &[],
        "infra",
        &names(&["ac"]),
        &labels(),
        &[],
    );
    let items = menu.items.join("\n");
    assert!(items.contains("●  infra  (this window is here)"), "{items}");
    assert!(items.contains("    ac-app  (2)"), "{items}");
    assert!(items.contains("    ac-shopify"), "{items}");
    assert!(!items.contains("ac-shopify  ("), "{items}");
}

#[test]
fn a_label_resolves_without_its_indent() {
    let menu = build_menu(Some(&held(&[("infra", 1)])), &names(&["t-pair"]), &[], "infra", &[], &labels(), &[]);
    let indented = menu.items.iter().find(|i| i.contains("t-pair")).unwrap();
    assert!(indented.starts_with("    "), "expected an indented entry");
    assert_eq!(menu.workspace_for(indented.trim()), Some(&"t-pair".to_string()));
    assert_eq!(menu.workspace_for(indented), Some(&"t-pair".to_string()));
}

#[test]
fn where_you_are_comes_first_and_pinned_tasks_rise_in_their_folder() {
    let menu = build_menu(
        Some(&held(&[("infra", 23), ("t-mail", 2), ("t-pair", 1), ("ac-app", 3)])),
        &names(&["t-forms"]),
        &[],
        "infra",
        &names(&["t", "ac"]),
        &labels(),
        &names(&["t-pair"]),
    );
    let order: Vec<&str> = menu
        .rows
        .iter()
        .filter_map(|r| r.section.as_deref())
        .fold(Vec::new(), |mut seen, section| {
            if seen.last() != Some(&section) {
                seen.push(section);
            }
            seen
        });
    assert_eq!(order.first(), Some(&"here"), "{order:?}");

    let tyto: Vec<&str> = menu
        .rows
        .iter()
        .filter(|r| r.section.as_deref() == Some("tyto"))
        .map(|r| r.id.as_str())
        .collect();
    assert_eq!(tyto.first(), Some(&"t-pair"), "{tyto:?}");
    assert!(menu.rows.iter().find(|r| r.id == "t-pair").unwrap().pinned);
    assert_eq!(menu.rows.iter().filter(|r| r.id == "infra").count(), 1);
    assert_eq!(menu.pinned, names(&["t-pair"]));
}

#[test]
fn unpinned_folders_keep_the_order_the_config_gave_them() {
    let menu = build_menu(
        Some(&held(&[("t-mail", 1), ("ac-app", 1), ("me-watson", 1)])),
        &[],
        &[],
        "",
        &names(&["t", "ac", "me"]),
        &labels(),
        &[],
    );
    let order: Vec<&str> = menu
        .rows
        .iter()
        .filter_map(|r| r.section.as_deref())
        .fold(Vec::new(), |mut seen, s| {
            if seen.last() != Some(&s) {
                seen.push(s);
            }
            seen
        });
    assert_eq!(order, vec!["tyto", "art corner", "me"]);
}

#[test]
fn the_current_workspace_is_not_also_listed_as_pinned() {
    let menu = build_menu(
        Some(&held(&[("infra", 2)])),
        &[],
        &[],
        "infra",
        &[],
        &labels(),
        &names(&["infra"]),
    );
    assert_eq!(menu.rows.iter().filter(|r| r.id == "infra").count(), 1);
    assert_eq!(menu.rows.iter().find(|r| r.id == "infra").unwrap().section.as_deref(), Some("here"));
}

#[test]
fn headings_name_no_workspace() {
    let menu = build_menu(Some(&held(&[("infra", 1)])), &[], &[], "infra", &[], &labels(), &[]);
    for item in &menu.items {
        if item.starts_with(SEP) {
            assert!(menu.workspace_for(item).is_none(), "{item} resolved to a workspace");
        }
    }
    assert!(menu.workspace_for(NEW).is_none());
}

#[test]
fn remembered_names_appear_when_aerospace_is_silent() {
    let menu = build_menu(None, &[], &names(&["ac-shopify"]), "infra", &[], &labels(), &[]);
    let items = menu.items.join("\n");
    assert!(items.contains("ac-shopify"));
    let numbered = menu.items.iter().any(|i| {
        i.rsplit_once('(')
            .and_then(|(_, tail)| tail.strip_suffix(')'))
            .is_some_and(|n| n.parse::<usize>().is_ok())
    });
    assert!(!numbered, "showed a count without knowing one: {items}");
}

#[test]
fn the_current_workspace_is_always_offered() {
    let menu = build_menu(Some(&held(&[])), &[], &[], "scratch", &[], &labels(), &[]);
    assert!((0..menu.back.len()).any(|i| menu.back.value_at(i) == "scratch"));
}

#[test]
fn pinning_reorders_a_folder_and_moves_nothing_between_folders() {
    let occupied = held(&[("infra", 23), ("t-mail", 2), ("t-pair", 1), ("ac-app", 3)]);
    let build = |pins: &[String]| {
        build_menu(Some(&occupied), &names(&["t-forms", "ac-zed"]), &[], "infra", &names(&["t", "ac"]), &labels(), pins)
    };
    let plain = build(&[]);
    let pinned = build(&names(&["t-pair", "ac-zed"]));
    let grouped = |menu: &sling::picker::Menu| {
        let mut groups: Vec<(String, Vec<String>)> = Vec::new();
        for row in &menu.rows {
            let Some(section) = row.section.clone() else { continue };
            if groups.last().map(|(s, _)| s != &section).unwrap_or(true) {
                groups.push((section, Vec::new()));
            }
            groups.last_mut().unwrap().1.push(row.id.clone());
        }
        groups
    };
    let (before, after) = (grouped(&plain), grouped(&pinned));
    assert_ne!(before, after, "pinning should reorder something");
    assert_eq!(before.len(), after.len());
    for ((s1, mut m1), (s2, mut m2)) in before.into_iter().zip(after) {
        assert_eq!(s1, s2);
        m1.sort();
        m2.sort();
        assert_eq!(m1, m2);
    }
}

#[test]
fn an_application_left_off_the_stack_is_no_rarer_than_what_is_shown() {
    // Three applications with three windows each: the stack fills with the
    // first two before the third is reached.
    let mut windows: Vec<Window> = Vec::new();
    for bundle in ["com.a", "com.b", "com.c"] {
        for _ in 0..3 {
            windows.push(win("1", bundle, bundle));
        }
    }
    let held = occupancy_of(&windows);
    let pile = stack_of(&held, "1");
    assert_eq!(pile.count, 9);
    assert_eq!(pile.stack, vec!["com.a", "com.a", "com.a", "com.b", "com.b"]);
}

#[test]
fn every_numbered_line_of_the_window_list_names_its_window() {
    let windows = vec![
        win("1", "Zed", ZED),
        win("2", "Brave Browser", BRAVE),
        win("1", "LibreOffice", OFFICE),
    ];
    let menu = build_window_menu(&windows, "1", |_: &Window| false);
    let mut found: Vec<String> = Vec::new();
    for item in &menu.items {
        match menu.window_for(item) {
            Some(w) => {
                assert!(item.contains(w.app.as_str()), "{item}");
                found.push(w.id.clone());
            }
            None => assert!(item.starts_with(SEP), "{item}"),
        }
    }
    found.sort();
    let mut ids: Vec<String> = windows.iter().map(|w| w.id.clone()).collect();
    ids.sort();
    assert_eq!(found, ids);
}

#[test]
fn a_rendered_row_handed_back_names_that_row() {
    let windows = vec![win("1", "Zed", ZED), win("2", "Brave Browser", BRAVE)];
    let menu = build_window_menu(&windows, "1", |_: &Window| false);
    for row in &menu.rows {
        assert_eq!(row_id_for(&menu.rows, &render_row(row)), Some(row.id.clone()));
    }
}

#[test]
fn grouping_loses_no_workspace() {
    let names: Vec<String> =
        ["t-forms", "ac-app", "infra", "t-mail", "zz-top", "house"].iter().map(|s| s.to_string()).collect();
    let order: Vec<String> = ["t", "ac"].iter().map(|s| s.to_string()).collect();
    let groups = group_workspaces(&names, &order, &labels());
    for name in &names {
        assert!(groups.iter().any(|(_, members)| members.contains(name)), "{name}");
    }
    let total: usize = groups.iter().map(|(_, members)| members.len()).sum();
    assert_eq!(total, names.len());
}
