//! The decisions the flows make about an answer.

use sling::app::{self,
    absorb, decide_board, decide_jump, decide_many, decide_one, followers_to_move, restores_for,
    switched, tabs, BoardChoice, Choice, Following, Mode, Outcome,
};
use sling::names::NameMap;
use sling::picker::Occupancy;
use sling::panel::pinned_from;
use sling::picker::{Row, Window, ALL, ALL_APP, NEW, TO_BOARD, TO_JUMP, TO_MANY, TO_ONE};
use sling::store::FollowList;

fn finish(c: Choice) -> Option<Outcome> {
    match c {
        Choice::Finish(o) => Some(o),
        _ => None,
    }
}

fn rows() -> Vec<Row> {
    let mut rows = tabs(Mode::One);
    rows.push(Row::action(NEW, NEW));
    rows.push(Row::space("t-forms"));
    rows
}

#[test]
fn a_tab_switches_and_the_showing_tab_does_nothing() {
    assert_eq!(
        finish(decide_one(TO_MANY, &rows(), false, false)),
        Some(Outcome::SwitchMode { to: TO_MANY.into() })
    );
    assert_eq!(finish(decide_one(TO_ONE, &rows(), false, false)), Some(Outcome::Cancelled));
}

#[test]
fn the_settings_read_their_state() {
    assert_eq!(
        finish(decide_one(ALL, &rows(), true, false)),
        Some(Outcome::Unfollowing { whole_app: false })
    );
    assert_eq!(
        finish(decide_one(ALL_APP, &rows(), false, false)),
        Some(Outcome::Following { whole_app: true })
    );
}

#[test]
fn a_pin_and_a_typed_name_are_read_off_the_id() {
    assert_eq!(
        finish(decide_one("__pin__:t-mail", &rows(), false, false)),
        Some(Outcome::PinToggled { workspace: "t-mail".into() })
    );
    assert!(matches!(decide_one("__new__:t/forms", &rows(), false, false), Choice::Typed(n) if n == "t-forms"));
    assert_eq!(
        finish(decide_one("__new__:///", &rows(), false, false)),
        Some(Outcome::EmptyName { raw: "///".into() })
    );
}

#[test]
fn only_a_row_that_goes_somewhere_is_a_target() {
    assert!(matches!(decide_one(NEW, &rows(), false, false), Choice::AskName));
    assert!(matches!(decide_one("t-forms", &rows(), false, false), Choice::Target(t) if t == "t-forms"));
    assert_eq!(finish(decide_one("nowhere", &rows(), false, false)), Some(Outcome::Heading));
}

#[test]
fn the_batch_question_tags_on_all_workspaces() {
    assert_eq!(finish(decide_many(ALL, &rows())), Some(Outcome::Following { whole_app: false }));
    assert_eq!(finish(decide_many("__pin__:x", &rows())), Some(Outcome::Heading));
}

#[test]
fn jumping_needs_a_task_row() {
    let mut rows = tabs(Mode::Jump);
    let mut task = Row::space("t-mail");
    task.marker = None;
    rows.push(task);
    assert!(matches!(decide_jump("t-mail", &rows, "infra"), Choice::Target(t) if t == "t-mail"));
    assert_eq!(finish(decide_jump("t-mail", &rows, "t-mail")), Some(Outcome::SameWorkspace));
    assert_eq!(finish(decide_jump(TO_JUMP, &rows, "infra")), Some(Outcome::Heading));
    assert_eq!(
        finish(decide_jump(TO_BOARD, &rows, "infra")),
        Some(Outcome::SwitchMode { to: TO_BOARD.into() })
    );
}

#[test]
fn a_picked_tab_names_its_mode() {
    assert_eq!(switched(TO_MANY), Mode::Many);
    assert_eq!(switched(TO_JUMP), Mode::Jump);
    assert_eq!(switched(TO_BOARD), Mode::Board);
    assert_eq!(switched("anything"), Mode::One);
    assert_eq!(restores_for(7), 0);
}

fn finder(id: &str, workspace: &str) -> Window {
    Window {
        id: id.into(),
        workspace: workspace.into(),
        monitor: "1".into(),
        app: "Finder".into(),
        bundle: "com.apple.finder".into(),
        title: "Downloads".into(),
    }
}

#[test]
fn slinging_a_finder_window_grounds_it() {
    let mut list = FollowList::default();
    let w = finder("9", "infra");
    assert!(absorb(&mut list, &Outcome::Moved { to: "t-mail".into(), created: false }, &w));
    assert_eq!(list.grounded_ids(), vec!["9".to_string()]);
    // Asking for it everywhere again lifts the grounding.
    assert!(absorb(&mut list, &Outcome::Following { whole_app: false }, &w));
    assert!(list.grounded.is_empty());
    assert!(list.contains("9"));
    // A cancelled pick changes nothing.
    assert!(!absorb(&mut list, &Outcome::Cancelled, &w));
}

#[test]
fn a_grounded_window_stays_behind() {
    let grounded = vec!["9".to_string()];
    let all = vec![finder("9", "infra"), finder("10", "infra"), finder("11", "t-mail")];
    let follow = Following { windows: &[], apps: &[], grounded: &grounded };
    assert!(!follow.is_empty());
    assert!(!follow.has(&all[0]));
    assert!(follow.has(&all[1]));
    let fetched = followers_to_move(&all, follow, "t-mail", "", Some("infra"), Some("1"));
    let ids: Vec<&str> = fetched.iter().map(|w| w.id.as_str()).collect();
    assert_eq!(ids, vec!["10"]);
}

#[test]
fn the_pinned_rows_are_read_back_off_the_list() {
    let mut a = Row::space("a");
    a.pinned = true;
    let b = Row::space("b");
    let mut c = Row::space("c");
    c.pinned = true;
    assert_eq!(pinned_from(&[a, b, c]), vec!["a".to_string(), "c".to_string()]);
}

#[test]
fn every_outcome_has_a_name_in_the_log() {
    assert_eq!(Outcome::Moved { to: "x".into(), created: true }.kind(), "moved");
    assert_eq!(Outcome::EmptyName { raw: String::new() }.kind(), "empty_name");
    assert_eq!(Outcome::Focused { to: "x".into() }.kind(), "focused");
}

fn window(id: &str, workspace: &str, app: &str, title: &str) -> Window {
    Window {
        id: id.into(),
        workspace: workspace.into(),
        monitor: "1".into(),
        app: app.into(),
        bundle: "com.example".into(),
        title: title.into(),
    }
}

#[test]
fn putting_back_asks_the_log_before_the_snapshot() {
    let live = vec![
        window("1", "pile", "Brave", "Framing"),
        window("2", "pile", "Mail", "Inbox"),
        window("3", "t-mail", "Zed", "notes"),
        window("4", "pile", "Ghostty", "herdr"),
    ];
    let placed = vec![(("Brave".to_string(), "Framing".to_string()), "t-pair".to_string())];
    // The snapshot disagrees about window 1 and knows where 2 and 3 were.
    let snapshot = vec![("1", "ac-app"), ("2", "mail"), ("3", "t-mail"), ("4", "infra")];
    let following = vec!["4".to_string()];
    let follow = Following { windows: &following, apps: &[], grounded: &[] };
    assert_eq!(
        app::restore_plan(&placed, &snapshot, &live, follow),
        vec![("1".to_string(), "t-pair".to_string()), ("2".to_string(), "mail".to_string())]
    );
}

fn board_window(id: &str, workspace: &str) -> Window {
    Window {
        id: id.into(),
        workspace: workspace.into(),
        monitor: "1".into(),
        app: "Zed".into(),
        bundle: "dev.zed.Zed".into(),
        title: String::new(),
    }
}

fn describe(c: BoardChoice) -> String {
    match c {
        BoardChoice::Leave(t) => format!("leave {t}"),
        BoardChoice::Drags(d) => format!("drags {d:?}"),
        BoardChoice::Cancel => "cancel".into(),
        BoardChoice::Window(k) => format!("window {k}"),
        BoardChoice::Same => "same".into(),
        BoardChoice::Visit(t) => format!("visit {t}"),
        BoardChoice::Heading => "heading".into(),
    }
}

#[test]
fn a_board_answer_is_read_tab_first_then_drags_then_what_was_clicked() {
    let windows = vec![board_window("7", "t-mail"), board_window("9", "infra")];
    let mut occupied: NameMap<Occupancy> = NameMap::new();
    occupied.insert("t-mail".to_string(), Occupancy { count: 1, stack: Vec::new() });
    occupied.insert("infra".to_string(), Occupancy { count: 1, stack: Vec::new() });
    let empty = vec!["t-new".to_string()];
    let ask = |answer: &[&str]| {
        let answer: Vec<String> = answer.iter().map(|a| a.to_string()).collect();
        describe(decide_board(&answer, &windows, &occupied, &empty, "infra"))
    };
    assert_eq!(ask(&["__sling__:7:t-new", TO_MANY]), format!("leave {TO_MANY}"));
    assert_eq!(ask(&[TO_BOARD]), "heading");
    assert_eq!(
        ask(&["__sling__:7:t-new", "junk", "__sling__:9:t-mail"]),
        "drags [(\"7\", \"t-new\"), (\"9\", \"t-mail\")]"
    );
    assert_eq!(ask(&[]), "cancel");
    assert_eq!(ask(&["9"]), "window 1");
    assert_eq!(ask(&["infra"]), "same");
    assert_eq!(ask(&["t-new"]), "visit t-new");
    assert_eq!(ask(&["t-mail"]), "visit t-mail");
    assert_eq!(ask(&["nowhere"]), "heading");
}

#[test]
fn putting_back_counts_what_is_already_right() {
    let live = vec![
        window("1", "pile", "Brave", "Framing"),
        window("2", "pile", "Mail", "Inbox"),
        window("3", "t-mail", "Zed", "notes"),
        window("4", "infra", "Ghostty", "herdr"),
    ];
    let placed = vec![(("Brave".to_string(), "Framing".to_string()), "t-pair".to_string())];
    let snapshot = vec![("1", "ac-app"), ("2", "mail"), ("3", "t-mail"), ("4", "infra")];
    let following = vec!["4".to_string()];
    let follow = Following { windows: &following, apps: &[], grounded: &[] };
    // Window 3 is where the snapshot had it; window 4 follows, so it is not counted.
    assert_eq!(app::in_place(&placed, &snapshot, &live, follow), 1);
}
