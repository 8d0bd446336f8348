//! What goes to the AppleScript dialog and what comes back.

use sling::dialog::{applescript_string, dialog_answer, picked_from, rendered_items, row_ids_for};
use sling::picker::Row;

#[test]
fn quotes_and_backslashes_are_escaped() {
    assert_eq!(applescript_string(r#"say "hi" \o/"#), r#"say \"hi\" \\o/"#);
    assert_eq!(applescript_string("plain"), "plain");
    assert_eq!(applescript_string(""), "");
}

#[test]
fn only_the_trailing_newline_goes() {
    assert_eq!(dialog_answer("    ac-app\n").as_deref(), Some("    ac-app"));
    assert_eq!(dialog_answer("\n"), None);
    assert_eq!(dialog_answer(""), None);
}

#[test]
fn a_multi_selection_splits_on_the_unit_separator() {
    let answer = "a, with comma\u{1f}  b  \u{1f}\u{1f}c";
    assert_eq!(picked_from(answer), Some(vec!["a, with comma".to_string(), "b".into(), "c".into()]));
    assert_eq!(picked_from(" \u{1f} "), None);
}

#[test]
fn picked_lines_lead_back_to_row_ids() {
    let rows = vec![Row::action("__many__", "sling many"), Row::space("t-mail")];
    let items = rendered_items(&rows);
    assert_eq!(items, vec!["sling many".to_string(), "    t-mail".to_string()]);
    let chosen = vec!["t-mail".to_string(), "nothing".to_string(), "sling many".to_string()];
    assert_eq!(row_ids_for(&rows, &chosen), vec!["t-mail".to_string(), "__many__".to_string()]);
}
