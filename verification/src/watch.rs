//! Following herdr's focused tab into the matching AeroSpace workspace.
//!
//! herdr has no tab-focus event to subscribe to — protocol 22 offers only
//! `pane.output_matched`, `pane.agent_status_changed` and
//! `pane.scroll_changed` — so the focused tab is polled. `herdr tab list`
//! costs about 7ms, which is cheap enough to ask several times a second.
//!
//! The decision is separated from the polling so that every reason to do
//! nothing is testable. Refusing is the common case and the important one: a
//! wrong switch empties the screen.
use vstd::prelude::*;

use crate::json::{json_string_at, string_at};
use crate::names::NameMap;
use crate::picker::opt_text;
use crate::text::{owned, same_text};

verus! {

/// The workspace a line of `aerospace subscribe` names as just focused.
pub open spec fn changed_to(line: Seq<char>) -> Option<Seq<char>> {
    change_named(json_string_at(line, "/_event"@), json_string_at(line, "/workspace"@))
}

/// The workspace an event line names as just focused, given what it says
/// under `_event` and `workspace`.
pub open spec fn change_named(event: Option<Seq<char>>, workspace: Option<Seq<char>>) -> Option<
    Seq<char>,
> {
    match (event, workspace) {
        (Some(event), Some(workspace)) => if event == "focused-workspace-changed"@
            && workspace.len() > 0 {
            Some(workspace)
        } else {
            None
        },
        _ => None,
    }
}

/// The workspace an event line names as just focused, given what it says
/// under `_event` and under `workspace`.
pub fn change_from_fields(event: Option<String>, workspace: Option<String>) -> (r: Option<String>)
    ensures
        opt_text(r) == change_named(opt_text(event), opt_text(workspace)),
{
    proof {
        reveal_strlit("focused-workspace-changed");
    }
    match (event, workspace) {
        (Some(event), Some(workspace)) => {
            if same_text(event.as_str(), "focused-workspace-changed") && !workspace.as_str().is_empty() {
                Some(workspace)
            } else {
                None
            }
        },
        _ => None,
    }
}

/// Whether what a pushed line says under `event` is a tab having been focused.
pub fn is_focus_event(event: Option<String>) -> (r: bool)
    ensures
        r == (opt_text(event) == Some("tab_focused"@)),
{
    proof {
        reveal_strlit("tab_focused");
    }
    match event {
        Some(event) => same_text(event.as_str(), "tab_focused"),
        None => false,
    }
}

/// The workspace AeroSpace has just moved to, from one of its own event lines.
///
/// `aerospace subscribe` prints JSON lines with the event name under `_event`.
/// Only a workspace change is of interest: it is the moment the follow list
/// needs to catch up, whoever caused it — a keybinding, a click, or sling.
pub fn workspace_changed(line: &str) -> (r: Option<String>)
    ensures
        opt_text(r) == changed_to(line@),
{
    change_from_fields(string_at(line, "/_event"), string_at(line, "/workspace"))
}

/// Is this pushed line a tab having been focused?
///
/// The subscription is named `tab.focused`; the event arrives as
/// `tab_focused`. The acknowledgement line carries no `event` field at all.
pub fn is_tab_focused(line: &str) -> (r: bool)
    ensures
        r == (json_string_at(line@, "/event"@) == Some("tab_focused"@)),
{
    is_focus_event(string_at(line, "/event"))
}

#[derive(Debug, Clone, PartialEq, Eq)]
pub enum Action {
    /// Why nothing happened. Worth carrying: in a watcher that mostly
    /// declines, "it did nothing" and "it did nothing for a good reason" need
    /// to be distinguishable.
    Hold(&'static str),
    Switch(String),
}

/// The decision, as text: `Ok` names the workspace to switch to, `Err` says
/// why not.
pub open spec fn decision(
    focused_tab: Option<Seq<char>>,
    settled: Option<Seq<char>>,
    current: Seq<char>,
    counts: NameMap<usize>,
) -> Result<Seq<char>, Seq<char>> {
    match focused_tab {
        None => Err("no focused herdr tab"@),
        Some(tab) => if settled != Some(tab) {
            Err("still moving"@)
        } else if tab == current {
            Err("already there"@)
        } else if counts.lookup(tab) matches Some(n) && n > 0 {
            Ok(tab)
        } else {
            Err("that task holds no windows yet"@)
        },
    }
}

pub open spec fn action_view(a: Action) -> Result<Seq<char>, Seq<char>> {
    match a {
        Action::Hold(why) => Err(why@),
        Action::Switch(to) => Ok(to@),
    }
}

pub open spec fn opt_str(o: Option<&str>) -> Option<Seq<char>> {
    match o {
        Some(s) => Some(s@),
        None => None,
    }
}

/// Decide whether the focused herdr tab should pull AeroSpace across.
///
/// `settled` is the tab seen on the previous poll. Requiring two consecutive
/// sightings debounces flicking through tabs, which would otherwise queue a
/// workspace switch per tab passed through.
pub fn decide(
    focused_tab: Option<&str>,
    settled: Option<&str>,
    current_workspace: &str,
    counts: &NameMap<usize>,
) -> (r: Action)
    ensures
        action_view(r) == decision(opt_str(focused_tab), opt_str(settled), current_workspace@, *counts),
{
    let tab = match focused_tab {
        Some(t) => t,
        None => {
            proof {
                reveal_strlit("no focused herdr tab");
            }
            return Action::Hold("no focused herdr tab");
        },
    };
    let same = match settled {
        Some(s) => same_text(s, tab),
        None => false,
    };
    if !same {
        proof {
            reveal_strlit("still moving");
        }
        return Action::Hold("still moving");
    }
    if same_text(tab, current_workspace) {
        proof {
            reveal_strlit("already there");
        }
        return Action::Hold("already there");
    }
    // The one that matters. AeroSpace shows a workspace by restoring its
    // windows; a workspace with none is a blank screen, and getting back costs
    // a full restore of wherever you came from.
    match counts.get(tab) {
        Some(n) => {
            if *n > 0 {
                return Action::Switch(owned(tab));
            }
        },
        None => {},
    }
    proof {
        reveal_strlit("that task holds no windows yet");
    }
    Action::Hold("that task holds no windows yet")
}

/// A switch only ever goes to a tab that has settled, that is somewhere
/// else, and whose task holds windows; every other case holds.
pub proof fn lemma_switch_is_safe(
    focused_tab: Option<Seq<char>>,
    settled: Option<Seq<char>>,
    current: Seq<char>,
    counts: NameMap<usize>,
)
    ensures
        decision(focused_tab, settled, current, counts) matches Ok(t) ==> {
            &&& focused_tab == Some(t)
            &&& settled == Some(t)
            &&& t != current
            &&& counts.lookup(t) matches Some(n) && n > 0
        },
{
}

} // verus!
