//! Reading AeroSpace's answers.

use sling::aerospace::{counts_from_listing, occupancy_of_counts, windows_from_listing};

#[test]
fn counts_every_window_by_workspace() {
    let counts = counts_from_listing("infra\n t-mail \n\ninfra\r\nac-app");
    assert_eq!(counts.names(), vec!["ac-app", "infra", "t-mail"]);
    assert_eq!(counts.get("infra"), Some(&2));
    assert_eq!(counts.get("t-mail"), Some(&1));
    assert_eq!(counts.get(""), None);
}

#[test]
fn a_listing_of_windows_skips_what_is_not_one() {
    let out = "1|infra|1|Zed|dev.zed.Zed|a | b\n\n|x|1|Y|y|z\n2|t-mail|2|Mail|com.apple.mail|";
    let windows = windows_from_listing(out);
    assert_eq!(windows.len(), 2);
    assert_eq!(windows[0].title, "a | b");
    assert_eq!(windows[1].workspace, "t-mail");
    assert_eq!(windows[1].monitor, "2");
}

#[test]
fn counts_alone_draw_no_icons() {
    let counts = counts_from_listing("a\na\nb\n");
    let held = occupancy_of_counts(&counts);
    assert_eq!(held.get("a").map(|o| o.count), Some(2));
    assert!(held.get("b").is_some_and(|o| o.stack.is_empty()));
}
