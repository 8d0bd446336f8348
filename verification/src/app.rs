//! The sling itself: read the focused window, ask where it belongs, move it.
//!
//! Written against traits rather than AeroSpace so the whole flow can be
//! exercised without a window manager. Every decision the flow makes about
//! an answer is a function of its own here, with the answer as an argument;
//! the flows that ask say what holds whatever the answers were.
use vstd::prelude::*;

use crate::aerospace::WindowManager;
use crate::config::Config;
use crate::dialog::Prompt;
use crate::names::NameMap;
use crate::picker::{
    self, global_by_nature, is_global_by_nature, is_mode, is_mode_text, opt_text, row_views,
    sanitise_workspace, sanitised, Occupancy, Row, RowView, Window, ALL, ALL_APP, BOARD_LABEL,
    JUMP_LABEL, MANY_LABEL, NEW, NEW_NAMED, ONCE_LABEL, PIN, TO_BOARD, TO_JUMP, TO_MANY, TO_ONE,
};
use crate::store::{
    followed_apps, followers, without_id, window_toggled, app_toggled, follower_ids, FollowList,
};
use crate::text::{
    chars_of, copy_text, owned, same_text, strip_prefix, strip_prefix_exec, string_of, views,
};

verus! {

// ---------------------------------------------------------------------------
// What comes along
// ---------------------------------------------------------------------------

/// What comes along to every task: named windows, whole applications, and the
/// applications that are everywhere by nature — minus anything you have put
/// somewhere on purpose.
#[derive(Debug, Clone, Copy, Default)]
pub struct Following<'a> {
    pub windows: &'a [String],
    pub apps: &'a [String],
    /// Windows that were slung somewhere deliberately, and so stopped being
    /// global. Only ever holds windows of an application that would otherwise
    /// follow by nature; asking for a window to be somewhere is a stronger
    /// statement than a default about its application.
    pub grounded: &'a [String],
}

/// Whether a window comes along: not if it was put somewhere on purpose;
/// otherwise if it is named, or its application is followed or is global by
/// nature.
pub open spec fn follows(f: Following, w: Window) -> bool {
    !views(f.grounded@).contains(w.id@) && (views(f.windows@).contains(w.id@) || (w.bundle@.len()
        > 0 && (views(f.apps@).contains(w.bundle@) || global_by_nature(w.bundle@))))
}

/// Who comes along: never a window put somewhere on purpose; otherwise a
/// window named in the list, every window of a followed application, and
/// every Finder window; and nothing else.
pub proof fn lemma_who_follows(f: Following, w: Window)
    ensures
        views(f.grounded@).contains(w.id@) ==> !follows(f, w),
        !views(f.grounded@).contains(w.id@) && views(f.windows@).contains(w.id@) ==> follows(f, w),
        !views(f.grounded@).contains(w.id@) && w.bundle@.len() > 0 && views(f.apps@).contains(
            w.bundle@,
        ) ==> follows(f, w),
        !views(f.grounded@).contains(w.id@) && w.bundle@ == "com.apple.finder"@ ==> follows(f, w),
        !views(f.windows@).contains(w.id@) && !views(f.apps@).contains(w.bundle@) && w.bundle@
            != "com.apple.finder"@ ==> !follows(f, w),
{
    reveal_strlit("com.apple.finder");
}

/// A window of a followed application comes along on arrival: when the
/// listing holds it and it is not where you are going, not the window just
/// slung, and on the workspace and screen the move is limited to, it is among
/// the windows fetched.
pub proof fn lemma_followed_app_fetched(
    listed: Seq<Window>,
    f: Following,
    w: Window,
    target: Seq<char>,
    already_moved: Seq<char>,
    only_from: Option<Seq<char>>,
    only_on: Option<Seq<char>>,
)
    requires
        listed.contains(w),
        !views(f.grounded@).contains(w.id@),
        w.bundle@.len() > 0,
        views(f.apps@).contains(w.bundle@),
        w.id@ != already_moved,
        w.workspace@ != target,
        only_from matches Some(from) ==> w.workspace@ == from,
        only_on matches Some(m) ==> w.monitor@ == m,
    ensures
        fetched_from(listed, f, target, already_moved, only_from, only_on).contains(w),
{
    lemma_who_follows(f, w);
    let keep = |x: Window| to_fetch(f, x, target, already_moved, only_from, only_on);
    let i = choose|i: int| 0 <= i < listed.len() && listed[i] == w;
    assert(keep(listed[i]));
    listed.lemma_filter_contains(keep, i);
}

pub(crate) fn names_any(list: &[String], x: &str) -> (r: bool)
    ensures
        r == views(list@).contains(x@),
{
    let mut i: usize = 0;
    while i < list.len()
        invariant
            i <= list@.len(),
            forall|k: int| 0 <= k < i ==> views(list@)[k] != x@,
        decreases list.len() - i,
    {
        if same_text(list[i].as_str(), x) {
            assert(views(list@)[i as int] == x@);
            return true;
        }
        i += 1;
    }
    false
}

impl Following<'_> {
    /// Never, while any application is global by nature: one of its windows
    /// may be open even when nothing has been added to the list. Finder
    /// always is, so this is honest rather than pessimistic.
    pub fn is_empty(&self) -> (r: bool)
        ensures
            !r,
    {
        crate::picker::GLOBAL_BY_NATURE.len() == 0 && self.windows.len() == 0 && self.apps.len() == 0
    }

    /// A window you slung is where you asked it to be. That beats anything
    /// its application is by default — but not an explicit "show this one
    /// everywhere", which takes it off the grounded list instead.
    pub fn has(&self, window: &Window) -> (r: bool)
        ensures
            r == follows(*self, *window),
    {
        if names_any(self.grounded, window.id.as_str()) {
            return false;
        }
        names_any(self.windows, window.id.as_str()) || (!window.bundle.as_str().is_empty() && (
        names_any(self.apps, window.bundle.as_str()) || is_global_by_nature(
            window.bundle.as_str(),
        )))
    }
}

// ---------------------------------------------------------------------------
// Outcomes
// ---------------------------------------------------------------------------

#[derive(Debug, Clone, PartialEq, Eq)]
pub enum Outcome {
    /// Nothing focused, or AeroSpace did not answer.
    NoWindow,
    /// The focused window is sling's own dialog. Pressing the key twice in a
    /// row lands here, because System Events keeps focus after the dialog
    /// closes.
    OwnDialog,
    Cancelled,
    /// A group heading was selected; headings name no workspace.
    Heading,
    /// A tab was picked. Never reaches the log — `run_session` acts on it and
    /// reopens in that mode. Carries which, because with several tabs there
    /// is no "the other one".
    SwitchMode { to: String },
    /// A row was pinned or unpinned. The caller stores it and asks again,
    /// since the order of the list has changed underneath.
    PinToggled { workspace: String },
    SameWorkspace,
    /// A typed name that sanitised away to nothing.
    EmptyName { raw: String },
    /// The window could not be focused again after the dialog, so nothing was
    /// moved. Minimised windows land here.
    RefocusFailed,
    MoveFailed { to: String },
    Moved { to: String, created: bool },
    /// Added to the follow list: comes along to every task from now on.
    /// `whole_app` distinguishes following this window from following every
    /// window its application has.
    Following { whole_app: bool },
    /// Taken off it.
    Unfollowing { whole_app: bool },
    /// Went to a task rather than sending anything to one.
    Jumped { to: String },
    /// Went to one particular window from the board, which brings its task
    /// forward with it. Kept apart from `Jumped` so the log says which of the
    /// two questions was being answered.
    Focused { to: String },
}

/// An outcome, its names as text.
pub enum OutcomeView {
    NoWindow,
    OwnDialog,
    Cancelled,
    Heading,
    SwitchMode { to: Seq<char> },
    PinToggled { workspace: Seq<char> },
    SameWorkspace,
    EmptyName { raw: Seq<char> },
    RefocusFailed,
    MoveFailed { to: Seq<char> },
    Moved { to: Seq<char>, created: bool },
    Following { whole_app: bool },
    Unfollowing { whole_app: bool },
    Jumped { to: Seq<char> },
    Focused { to: Seq<char> },
}

impl View for Outcome {
    type V = OutcomeView;

    open spec fn view(&self) -> OutcomeView {
        match self {
            Outcome::NoWindow => OutcomeView::NoWindow,
            Outcome::OwnDialog => OutcomeView::OwnDialog,
            Outcome::Cancelled => OutcomeView::Cancelled,
            Outcome::Heading => OutcomeView::Heading,
            Outcome::SwitchMode { to } => OutcomeView::SwitchMode { to: to@ },
            Outcome::PinToggled { workspace } => OutcomeView::PinToggled { workspace: workspace@ },
            Outcome::SameWorkspace => OutcomeView::SameWorkspace,
            Outcome::EmptyName { raw } => OutcomeView::EmptyName { raw: raw@ },
            Outcome::RefocusFailed => OutcomeView::RefocusFailed,
            Outcome::MoveFailed { to } => OutcomeView::MoveFailed { to: to@ },
            Outcome::Moved { to, created } => OutcomeView::Moved { to: to@, created: *created },
            Outcome::Following { whole_app } => OutcomeView::Following { whole_app: *whole_app },
            Outcome::Unfollowing { whole_app } => OutcomeView::Unfollowing { whole_app: *whole_app },
            Outcome::Jumped { to } => OutcomeView::Jumped { to: to@ },
            Outcome::Focused { to } => OutcomeView::Focused { to: to@ },
        }
    }
}

/// How an outcome is named in the log.
pub open spec fn kind_text(o: OutcomeView) -> Seq<char> {
    match o {
        OutcomeView::NoWindow => "no_window"@,
        OutcomeView::OwnDialog => "own_dialog"@,
        OutcomeView::Cancelled => "cancelled"@,
        OutcomeView::Heading => "heading"@,
        OutcomeView::SwitchMode { .. } => "switch_mode"@,
        OutcomeView::PinToggled { .. } => "pin_toggled"@,
        OutcomeView::SameWorkspace => "same_workspace"@,
        OutcomeView::EmptyName { .. } => "empty_name"@,
        OutcomeView::RefocusFailed => "refocus_failed"@,
        OutcomeView::MoveFailed { .. } => "move_failed"@,
        OutcomeView::Moved { .. } => "moved"@,
        OutcomeView::Following { .. } => "following"@,
        OutcomeView::Unfollowing { .. } => "unfollowing"@,
        OutcomeView::Jumped { .. } => "jumped"@,
        OutcomeView::Focused { .. } => "focused"@,
    }
}

impl Outcome {
    pub fn kind(&self) -> (r: &'static str)
        ensures
            r@ == kind_text(self@),
    {
        proof {
            reveal_strlit("no_window");
            reveal_strlit("own_dialog");
            reveal_strlit("cancelled");
            reveal_strlit("heading");
            reveal_strlit("switch_mode");
            reveal_strlit("pin_toggled");
            reveal_strlit("same_workspace");
            reveal_strlit("empty_name");
            reveal_strlit("refocus_failed");
            reveal_strlit("move_failed");
            reveal_strlit("moved");
            reveal_strlit("following");
            reveal_strlit("unfollowing");
            reveal_strlit("jumped");
            reveal_strlit("focused");
        }
        match self {
            Outcome::NoWindow => "no_window",
            Outcome::OwnDialog => "own_dialog",
            Outcome::Cancelled => "cancelled",
            Outcome::Heading => "heading",
            Outcome::SwitchMode { .. } => "switch_mode",
            Outcome::PinToggled { .. } => "pin_toggled",
            Outcome::SameWorkspace => "same_workspace",
            Outcome::EmptyName { .. } => "empty_name",
            Outcome::RefocusFailed => "refocus_failed",
            Outcome::MoveFailed { .. } => "move_failed",
            Outcome::Moved { .. } => "moved",
            Outcome::Following { .. } => "following",
            Outcome::Unfollowing { .. } => "unfollowing",
            Outcome::Jumped { .. } => "jumped",
            Outcome::Focused { .. } => "focused",
        }
    }
}

// ---------------------------------------------------------------------------
// What an outcome means for the follow list
// ---------------------------------------------------------------------------

/// What an outcome means for the follow list.
///
/// Returns whether anything changed, so the caller writes the file only when
/// it did. It lives here rather than in `main` because the interesting part is
/// a rule — slinging a window of a globally-natured application is how you say
/// "not this one".
pub fn absorb(follow: &mut FollowList, outcome: &Outcome, w: &Window) -> (changed: bool)
    ensures
        match outcome@ {
            OutcomeView::Following { whole_app: true } | OutcomeView::Unfollowing {
                whole_app: true,
            } => {
                &&& changed
                &&& followed_apps(final(follow).apps@) == app_toggled(
                    followed_apps(old(follow).apps@),
                    w.bundle@,
                    w.app@,
                )
                &&& final(follow).windows@ == old(follow).windows@
                &&& final(follow).grounded@ == old(follow).grounded@
            },
            OutcomeView::Following { whole_app: false } => {
                &&& changed
                &&& followers(final(follow).windows@) == window_toggled(
                    followers(old(follow).windows@),
                    w.id@,
                    w.app@,
                    w.title@,
                )
                &&& followers(final(follow).grounded@) == without_id(
                    followers(old(follow).grounded@),
                    w.id@,
                )
                &&& final(follow).apps@ == old(follow).apps@
            },
            OutcomeView::Unfollowing { whole_app: false } => {
                &&& changed
                &&& followers(final(follow).windows@) == window_toggled(
                    followers(old(follow).windows@),
                    w.id@,
                    w.app@,
                    w.title@,
                )
                &&& final(follow).apps@ == old(follow).apps@
                &&& final(follow).grounded@ == old(follow).grounded@
            },
            OutcomeView::Moved { .. } => if global_by_nature(w.bundle@) {
                &&& changed == !follower_ids(old(follow).grounded@).contains(w.id@)
                &&& changed ==> followers(final(follow).grounded@) == followers(
                    old(follow).grounded@,
                ).push((w.id@, w.app@, w.title@))
                &&& !changed ==> final(follow).grounded@ == old(follow).grounded@
                &&& final(follow).windows@ == old(follow).windows@
                &&& final(follow).apps@ == old(follow).apps@
            } else {
                &&& !changed
                &&& *final(follow) == *old(follow)
            },
            _ => !changed && *final(follow) == *old(follow),
        },
{
    match outcome {
        Outcome::Following { whole_app: true } | Outcome::Unfollowing { whole_app: true } => {
            follow.toggle_app(w.bundle.as_str(), w.app.as_str());
            true
        },
        Outcome::Following { .. } => {
            follow.toggle(w.id.as_str(), w.app.as_str(), w.title.as_str());
            // Asking for this window everywhere outranks having put it
            // somewhere earlier.
            follow.unground(w.id.as_str());
            true
        },
        Outcome::Unfollowing { .. } => {
            follow.toggle(w.id.as_str(), w.app.as_str(), w.title.as_str());
            true
        },
        // The sling is the whole instruction; there is nothing else to tick.
        Outcome::Moved { .. } => {
            if is_global_by_nature(w.bundle.as_str()) {
                follow.ground(w.id.as_str(), w.app.as_str(), w.title.as_str())
            } else {
                false
            }
        },
        _ => false,
    }
}

// ---------------------------------------------------------------------------
// One window
// ---------------------------------------------------------------------------

/// The application that owns sling's own dialog; never a task window.
pub const DIALOG_APP: &'static str = "System Events";

pub struct Run {
    pub window: Option<Window>,
    /// What each workspace holds, or `None` if AeroSpace did not answer.
    pub occupancy: Option<NameMap<Occupancy>>,
    pub outcome: Outcome,
    /// Followers dragged along to the same task.
    pub brought: Vec<(Window, Outcome)>,
}

/// Whether a window may be fetched to `target` when you arrive there: it
/// follows, it is not the window that was slung there in its own right, it
/// is not there already, and it is on the workspace and screen given, when
/// given.
pub open spec fn to_fetch(
    follow: Following,
    w: Window,
    target: Seq<char>,
    already_moved: Seq<char>,
    only_from: Option<Seq<char>>,
    only_on: Option<Seq<char>>,
) -> bool {
    &&& follows(follow, w)
    &&& w.id@ != already_moved
    &&& w.workspace@ != target
    &&& (only_from matches Some(from) ==> w.workspace@ == from)
    &&& (only_on matches Some(monitor) ==> w.monitor@ == monitor)
}

pub open spec fn opt_str(o: Option<&str>) -> Option<Seq<char>> {
    match o {
        Some(s) => Some(s@),
        None => None,
    }
}

fn matches_if_given(given: Option<&str>, actual: &String) -> (r: bool)
    ensures
        r == (opt_str(given) matches Some(x) ==> actual@ == x),
{
    match given {
        Some(x) => same_text(actual.as_str(), x),
        None => true,
    }
}

/// The windows to fetch when you arrive at `target`, in the order listed.
pub fn followers_to_move(
    all: &[Window],
    follow: Following,
    target: &str,
    already_moved: &str,
    only_from: Option<&str>,
    only_on: Option<&str>,
) -> (r: Vec<Window>)
    ensures
        r@ == all@.filter(
            |w: Window|
                to_fetch(follow, w, target@, already_moved@, opt_str(only_from), opt_str(only_on)),
        ),
{
    let ghost keep = |w: Window|
        to_fetch(follow, w, target@, already_moved@, opt_str(only_from), opt_str(only_on));
    let mut r: Vec<Window> = Vec::new();
    let mut i: usize = 0;
    while i < all.len()
        invariant
            i <= all@.len(),
            keep == (|w: Window|
                to_fetch(follow, w, target@, already_moved@, opt_str(only_from), opt_str(only_on))),
            r@ == all@.take(i as int).filter(keep),
        decreases all.len() - i,
    {
        proof {
            assert(all@.take(i + 1) =~= all@.take(i as int).push(all@[i as int]));
            all@.take(i as int).lemma_filter_push(all@[i as int], keep);
        }
        let w = &all[i];
        if follow.has(w) && !same_text(w.id.as_str(), already_moved) && !same_text(
            w.workspace.as_str(),
            target,
        ) && matches_if_given(only_from, &w.workspace) && matches_if_given(only_on, &w.monitor) {
            r.push(w.duplicate());
        }
        i += 1;
    }
    assert(all@.take(all@.len() as int) =~= all@);
    r
}

/// The windows a list of moves took along, in order.
pub open spec fn brought_windows(brought: Seq<(Window, Outcome)>) -> Seq<Window> {
    brought.map_values(|b: (Window, Outcome)| b.0)
}

/// What of a window listing is to be fetched, in the order listed.
pub open spec fn fetched_from(
    listed: Seq<Window>,
    follow: Following,
    target: Seq<char>,
    already_moved: Seq<char>,
    only_from: Option<Seq<char>>,
    only_on: Option<Seq<char>>,
) -> Seq<Window> {
    listed.filter(|w: Window| to_fetch(follow, w, target, already_moved, only_from, only_on))
}

/// Move the follow list to `target`, skipping the window that was slung there
/// in its own right and any follower already sitting in it.
///
/// Called when you *arrive* somewhere — the `follow` hook, `goto`, `jump` —
/// never when a window is slung away from you.
///
/// `only_from` is a safety rail, not a filter for tidiness: passing the
/// workspace that is on screen keeps every follower move cheap, and a follower
/// that has wandered elsewhere is left alone until it is slung back by hand.
///
/// The window list is only fetched when there is something to follow.
pub fn follow_to<W: WindowManager>(
    wm: &W,
    follow: Following,
    target: &str,
    already_moved: &str,
    only_from: Option<&str>,
    only_on: Option<&str>,
) -> (brought: Vec<(Window, Outcome)>)
    ensures
        exists|listing: Option<Seq<Window>>|
            #[trigger] wm.windows_answer(listing) && brought_windows(brought@) == match listing {
                Some(l) => fetched_from(
                    l,
                    follow,
                    target@,
                    already_moved@,
                    opt_str(only_from),
                    opt_str(only_on),
                ),
                None => Seq::<Window>::empty(),
            },
        forall|k: int|
            0 <= k < brought@.len() ==> {
                let (w, o) = #[trigger] brought@[k];
                &&& to_fetch(follow, w, target@, already_moved@, opt_str(only_from), opt_str(only_on))
                &&& fetched_as(wm, w, target@, o@)
            },
{
    let ghost keep = |w: Window|
        to_fetch(follow, w, target@, already_moved@, opt_str(only_from), opt_str(only_on));
    if follow.is_empty() {
        return Vec::new();
    }
    let listing = wm.all_windows();
    let all = match listing {
        Some(all) => all,
        None => {
            let r: Vec<(Window, Outcome)> = Vec::new();
            assert(wm.windows_answer(None));
            assert(brought_windows(r@) =~= Seq::<Window>::empty());
            return r;
        },
    };
    let fetch = followers_to_move(all.as_slice(), follow, target, already_moved, only_from, only_on);
    let mut brought: Vec<(Window, Outcome)> = Vec::new();
    let mut i: usize = 0;
    while i < fetch.len()
        invariant
            i <= fetch@.len(),
            keep == (|w: Window|
                to_fetch(follow, w, target@, already_moved@, opt_str(only_from), opt_str(only_on))),
            fetch@ == all@.filter(keep),
            brought@.map_values(|b: (Window, Outcome)| b.0) == fetch@.take(i as int),
            forall|k: int|
                0 <= k < brought@.len() ==> {
                    let (w, o) = #[trigger] brought@[k];
                    &&& to_fetch(follow, w, target@, already_moved@, opt_str(only_from), opt_str(only_on))
                    &&& fetched_as(wm, w, target@, o@)
                },
        decreases fetch.len() - i,
    {
        proof {
            all@.lemma_filter_pred(keep, i as int);
        }
        let w = fetch[i].duplicate();
        let ok = wm.move_window(w.id.as_str(), target);
        let outcome = if ok {
            Outcome::Moved { to: owned(target), created: false }
        } else {
            Outcome::MoveFailed { to: owned(target) }
        };
        assert(fetched_as(wm, w, target@, outcome@));
        let ghost before = brought@;
        brought.push((w, outcome));
        assert(brought@.map_values(|b: (Window, Outcome)| b.0) =~= before.map_values(
            |b: (Window, Outcome)| b.0,
        ).push(fetch@[i as int]));
        assert(fetch@.take(i + 1) =~= fetch@.take(i as int).push(fetch@[i as int]));
        i += 1;
    }
    assert(fetch@.take(fetch@.len() as int) =~= fetch@);
    assert(brought_windows(brought@) == fetched_from(
        all@,
        follow,
        target@,
        already_moved@,
        opt_str(only_from),
        opt_str(only_on),
    ));
    assert(wm.windows_answer(Some(all@)));
    brought
}

/// What a follower's move came to: moved when the window manager took it,
/// failed when it did not.
pub open spec fn fetched_as<W: WindowManager>(
    wm: &W,
    w: Window,
    target: Seq<char>,
    o: OutcomeView,
) -> bool {
    exists|ok: bool|
        #[trigger] wm.move_answer(w.id@, target, ok) && o == if ok {
            OutcomeView::Moved { to: target, created: false }
        } else {
            OutcomeView::MoveFailed { to: target }
        }
}

/// What moving the follow list will cost, in workspace restores.
///
/// It used to cost `1 + 2(n-1)` restores for `n` followers, because moving a
/// window made AeroSpace's view follow it. Since moving by id neither focuses
/// nor switches, following costs no workspace restores at all. Kept so the
/// old arithmetic stays documented.
pub fn restores_for(followers: usize) -> (r: usize)
    ensures
        r == 0,
{
    0
}

// ---------------------------------------------------------------------------
// Tabs
// ---------------------------------------------------------------------------

/// Which list the dialog is showing.
#[derive(Debug, Clone, Copy, PartialEq, Eq, Structural)]
pub enum Mode {
    One,
    Many,
    Jump,
    Board,
}

pub open spec fn tab_view(id: Seq<char>, label: Seq<char>, active: bool) -> RowView {
    RowView { marker: Some("tab"@), active, ..Row::action_view(id, label) }
}

/// The tab strip with one mode showing.
pub open spec fn tab_views(showing: Mode) -> Seq<RowView> {
    seq![
        tab_view(TO_ONE@, ONCE_LABEL@, showing == Mode::One),
        tab_view(TO_MANY@, MANY_LABEL@, showing == Mode::Many),
        tab_view(TO_JUMP@, JUMP_LABEL@, showing == Mode::Jump),
        tab_view(TO_BOARD@, BOARD_LABEL@, showing == Mode::Board),
    ]
}

/// The tabs, with the showing one marked. Built in one place so every mode
/// offers the same strip and cannot drift.
pub fn tabs(showing: Mode) -> (r: Vec<Row>)
    ensures
        row_views(r@) == tab_views(showing),
{
    let r = vec![
        Row::tab(TO_ONE, ONCE_LABEL, showing == Mode::One),
        Row::tab(TO_MANY, MANY_LABEL, showing == Mode::Many),
        Row::tab(TO_JUMP, JUMP_LABEL, showing == Mode::Jump),
        Row::tab(TO_BOARD, BOARD_LABEL, showing == Mode::Board),
    ];
    assert(row_views(r@) =~= tab_views(showing));
    r
}

/// Every mode offers the same strip: the same tabs in the same order, with
/// only the mark moving, and the marked tab is the one for the mode showing.
pub proof fn lemma_same_strip(showing: Mode, other: Mode)
    ensures
        tab_views(showing).len() == tab_views(other).len(),
        forall|k: int|
            0 <= k < tab_views(showing).len() ==> (RowView {
                active: false,
                ..#[trigger] tab_views(showing)[k]
            }) == (RowView { active: false, ..tab_views(other)[k] }),
        forall|k: int|
            0 <= k < tab_views(showing).len() ==> (#[trigger] tab_views(showing)[k]).active
                == (mode_named(tab_views(showing)[k].id) == showing),
{
    reveal_strlit("__many__");
    reveal_strlit("__once__");
    reveal_strlit("__jump__");
    reveal_strlit("__board__");
    assert("__once__"@ != "__many__"@) by {
        assert("__once__"@[2] != "__many__"@[2]);
    }
    assert("__once__"@ != "__jump__"@) by {
        assert("__once__"@[2] != "__jump__"@[2]);
    }
    assert("__once__"@ != "__board__"@) by {
        assert("__once__"@.len() != "__board__"@.len());
    }
    assert("__jump__"@ != "__many__"@) by {
        assert("__jump__"@[2] != "__many__"@[2]);
    }
    assert("__board__"@ != "__many__"@) by {
        assert("__board__"@.len() != "__many__"@.len());
    }
    assert("__board__"@ != "__jump__"@) by {
        assert("__board__"@.len() != "__jump__"@.len());
    }
}

/// Which mode a picked tab asks for; anything else is the first.
pub open spec fn mode_named(to: Seq<char>) -> Mode {
    if to == TO_MANY@ {
        Mode::Many
    } else if to == TO_JUMP@ {
        Mode::Jump
    } else if to == TO_BOARD@ {
        Mode::Board
    } else {
        Mode::One
    }
}

pub fn switched(to: &str) -> (m: Mode)
    ensures
        m == mode_named(to@),
{
    if same_text(to, TO_MANY) {
        Mode::Many
    } else if same_text(to, TO_JUMP) {
        Mode::Jump
    } else if same_text(to, TO_BOARD) {
        Mode::Board
    } else {
        Mode::One
    }
}

// ---------------------------------------------------------------------------
// The rows one window is offered
// ---------------------------------------------------------------------------

pub open spec fn subject_view(w: Window) -> RowView {
    RowView {
        marker: Some("subject"@),
        bundle: Some(w.bundle@),
        ..Row::action_view(
            "__subject__"@,
            picker::shortened(
                if w.title@.len() == 0 {
                    w.app@
                } else {
                    picker::tab_title_text(w.app@, w.title@)
                },
                72,
            ),
        )
    }
}

pub open spec fn toggle_view(id: Seq<char>, label: Seq<char>, on: bool) -> RowView {
    RowView {
        marker: Some("setting"@),
        active: on,
        section: Some("here"@),
        ..Row::action_view(id, label)
    }
}

/// A row no longer claiming the window as being here.
pub open spec fn unmarked(r: RowView) -> RowView {
    if r.marker == Some("here"@) {
        RowView { marker: None, ..r }
    } else {
        r
    }
}

/// Whether a row sits with the current workspace.
pub open spec fn in_here() -> spec_fn(RowView) -> bool {
    |r: RowView| r.section == Some("here"@)
}

/// The last position at which `p` holds.
pub open spec fn last_index<T>(s: Seq<T>, p: spec_fn(T) -> bool) -> Option<int>
    decreases s.len(),
{
    if s.len() == 0 {
        None
    } else if p(s.last()) {
        Some(s.len() - 1)
    } else {
        last_index(s.drop_last(), p)
    }
}

proof fn lemma_last_index<T>(s: Seq<T>, p: spec_fn(T) -> bool)
    ensures
        match last_index(s, p) {
            Some(k) => 0 <= k < s.len() && p(s[k]) && forall|j: int| k < j < s.len() ==> !p(#[trigger] s[j]),
            None => forall|j: int| 0 <= j < s.len() ==> !p(#[trigger] s[j]),
        },
    decreases s.len(),
{
    if s.len() > 0 && !p(s.last()) {
        lemma_last_index(s.drop_last(), p);
        assert forall|j: int| 0 <= j < s.len() - 1 implies s.drop_last()[j] == s[j] by {}
    }
}

proof fn lemma_last_index_is<T>(s: Seq<T>, p: spec_fn(T) -> bool, k: int)
    requires
        0 <= k < s.len(),
        p(s[k]),
        forall|j: int| k < j < s.len() ==> !p(#[trigger] s[j]),
    ensures
        last_index(s, p) == Some(k),
{
    lemma_last_index(s, p);
}

pub open spec fn all_app_label(app: Seq<char>) -> Seq<char> {
    "Show every "@ + app + " window on all workspaces"@
}

/// What the one-window question offers: the tabs, the window itself, the
/// tasks, and the two settings — sitting with the current workspace, and
/// leading the group when the window is already shown everywhere. A window
/// shown everywhere is not claimed by the workspace it happens to sit in.
pub open spec fn one_rows(w: Window, menu: Seq<RowView>, showing: bool, app_everywhere: bool) -> Seq<
    RowView,
> {
    let base = tab_views(Mode::One) + seq![subject_view(w)] + menu;
    let cleared = if showing || app_everywhere {
        base.map_values(|r: RowView| unmarked(r))
    } else {
        base
    };
    let at = if showing {
        match crate::text::first_index(cleared, in_here()) {
            Some(k) => k,
            None => cleared.len() as int,
        }
    } else {
        match last_index(cleared, in_here()) {
            Some(k) => k + 1,
            None => cleared.len() as int,
        }
    };
    let with_all = cleared.insert(at, toggle_view(ALL@, "Show this window on all workspaces"@, showing));
    if w.bundle@.len() > 0 {
        with_all.insert(after_here(with_all), app_toggle_view(w.app@, app_everywhere))
    } else {
        with_all
    }
}

/// The setting for a whole application: it follows the current workspace's
/// group rather than sitting in it, since it says nothing of where this
/// window is.
pub open spec fn app_toggle_view(app: Seq<char>, on: bool) -> RowView {
    RowView { section: None, ..toggle_view(ALL_APP@, all_app_label(app), on) }
}

/// Just past the last row of the current workspace's group.
pub open spec fn after_here(rows: Seq<RowView>) -> int {
    match last_index(rows, in_here()) {
        Some(k) => k + 1,
        None => rows.len() as int,
    }
}

/// A window shown everywhere is in no one workspace, so no row claims it as
/// being here.
pub proof fn lemma_everywhere_is_nowhere(
    w: Window,
    menu: Seq<RowView>,
    showing: bool,
    app_everywhere: bool,
)
    requires
        showing || app_everywhere,
    ensures
        forall|k: int|
            0 <= k < one_rows(w, menu, showing, app_everywhere).len() ==> (#[trigger] one_rows(
                w,
                menu,
                showing,
                app_everywhere,
            )[k]).marker != Some("here"@),
{
    let base = tab_views(Mode::One) + seq![subject_view(w)] + menu;
    let cleared = base.map_values(|r: RowView| unmarked(r));
    assert forall|k: int| 0 <= k < cleared.len() implies (#[trigger] cleared[k]).marker != Some(
        "here"@,
    ) by {
        assert(cleared[k] == unmarked(base[k]));
    }
    let rows = one_rows(w, menu, showing, app_everywhere);
    assert forall|k: int| 0 <= k < rows.len() implies (#[trigger] rows[k]).marker != Some("here"@) by {
        reveal_strlit("here");
        reveal_strlit("setting");
        let at = if showing {
            match crate::text::first_index(cleared, in_here()) {
                Some(k) => k,
                None => cleared.len() as int,
            }
        } else {
            match last_index(cleared, in_here()) {
                Some(k) => k + 1,
                None => cleared.len() as int,
            }
        };
        crate::text::lemma_first_index(cleared, in_here());
        lemma_last_index(cleared, in_here());
        let with_all = cleared.insert(at, toggle_view(ALL@, "Show this window on all workspaces"@, showing));
        assert forall|j: int| 0 <= j < with_all.len() implies (#[trigger] with_all[j]).marker != Some(
            "here"@,
        ) by {
            if j < at {
                assert(with_all[j] == cleared[j]);
            } else if j > at {
                assert(with_all[j] == cleared[j - 1]);
            } else {
                assert(with_all[j].marker == Some("setting"@));
                assert("setting"@.len() != "here"@.len());
            }
        }
        if w.bundle@.len() > 0 {
            let app_at = after_here(with_all);
            lemma_last_index(with_all, in_here());
            let full = with_all.insert(app_at, app_toggle_view(w.app@, app_everywhere));
            if k < app_at {
                assert(full[k] == with_all[k]);
            } else if k > app_at {
                assert(full[k] == with_all[k - 1]);
            } else {
                assert(full[k].marker == Some("setting"@));
                assert("setting"@.len() != "here"@.len());
            }
        } else {
            assert(rows[k] == with_all[k]);
        }
    }
}

/// The current workspace's group opens with whichever answer is true: shown
/// everywhere, the setting leads it; otherwise the settings close it, after
/// the workspace the window is in.
pub proof fn lemma_here_group_order(w: Window, menu: Seq<RowView>, showing: bool, app_everywhere: bool)
    ensures
        ({
            let rows = one_rows(w, menu, showing, app_everywhere);
            &&& showing ==> (crate::text::first_index(rows, in_here()) matches Some(k) && rows[k].id
                == ALL@)
            &&& !showing ==> (last_index(rows, in_here()) matches Some(k) && rows[k].id == ALL@)
        }),
{
    reveal_strlit("here");
    let base = tab_views(Mode::One) + seq![subject_view(w)] + menu;
    let cleared = if showing || app_everywhere {
        base.map_values(|r: RowView| unmarked(r))
    } else {
        base
    };
    crate::text::lemma_first_index(cleared, in_here());
    lemma_last_index(cleared, in_here());
    let at = if showing {
        match crate::text::first_index(cleared, in_here()) {
            Some(k) => k,
            None => cleared.len() as int,
        }
    } else {
        match last_index(cleared, in_here()) {
            Some(k) => k + 1,
            None => cleared.len() as int,
        }
    };
    let all_row = toggle_view(ALL@, "Show this window on all workspaces"@, showing);
    let app_row = app_toggle_view(w.app@, app_everywhere);
    let with_all = cleared.insert(at, all_row);
    let rows = one_rows(w, menu, showing, app_everywhere);
    assert(in_here()(all_row) && !in_here()(app_row));
    assert(with_all[at] == all_row);
    lemma_last_index(with_all, in_here());
    let app_at = after_here(with_all);
    assert(at < app_at);
    if showing {
        assert forall|j: int| 0 <= j < at implies !in_here()(#[trigger] rows[j]) by {
            assert(with_all[j] == cleared[j]);
            if w.bundle@.len() > 0 {
                assert(rows[j] == with_all[j]);
            }
        }
        if w.bundle@.len() > 0 {
            assert(rows[at] == with_all[at]);
        }
        crate::text::lemma_first_index_is(rows, in_here(), at);
    } else {
        assert forall|j: int| at < j < with_all.len() implies !in_here()(#[trigger] with_all[j]) by {
            assert(with_all[j] == cleared[j - 1]);
        }
        if w.bundle@.len() > 0 {
            assert(app_at == at + 1);
            assert forall|j: int| at < j < rows.len() implies !in_here()(#[trigger] rows[j]) by {
                if j > at + 1 {
                    assert(rows[j] == with_all[j - 1]);
                } else {
                    assert(rows[j] == app_row);
                }
            }
            assert(rows[at] == all_row);
            lemma_last_index_is(rows, in_here(), at);
        } else {
            lemma_last_index_is(rows, in_here(), at);
        }
    }
}

fn is_here(r: &Row) -> (b: bool)
    ensures
        b == in_here()(r@),
{
    match &r.section {
        Some(s) => same_text(s.as_str(), "here"),
        None => false,
    }
}

/// The rows offered for one window, given the task rows and whether the
/// window, or its whole application, is shown everywhere.
#[verifier::rlimit(40)]
pub fn rows_for_one(window: &Window, menu: &[Row], showing: bool, app_everywhere: bool) -> (r: Vec<
    Row,
>)
    ensures
        row_views(r@) == one_rows(*window, row_views(menu@), showing, app_everywhere),
{
    let mut rows = tabs(Mode::One);
    rows.push(Row::subject(window.app.as_str(), window.title.as_str(), window.bundle.as_str()));
    let mut i: usize = 0;
    let ghost head = tab_views(Mode::One) + seq![subject_view(*window)];
    assert(row_views(rows@) =~= head);
    while i < menu.len()
        invariant
            i <= menu@.len(),
            head == tab_views(Mode::One) + seq![subject_view(*window)],
            row_views(rows@) == head + row_views(menu@).take(i as int),
        decreases menu.len() - i,
    {
        let ghost before = row_views(rows@);
        rows.push(menu[i].duplicate());
        assert(row_views(rows@) =~= before.push(menu@[i as int]@));
        assert(row_views(menu@).take(i + 1) =~= row_views(menu@).take(i as int).push(menu@[i as int]@));
        i += 1;
    }
    let ghost base = head + row_views(menu@);
    assert(row_views(menu@).take(menu@.len() as int) =~= row_views(menu@));
    if showing || app_everywhere {
        let mut j: usize = 0;
        while j < rows.len()
            invariant
                j <= rows@.len(),
                rows@.len() == base.len(),
                forall|k: int| 0 <= k < j ==> (#[trigger] rows@[k])@ == unmarked(base[k]),
                forall|k: int| j <= k < rows@.len() ==> (#[trigger] rows@[k])@ == base[k],
            decreases rows.len() - j,
        {
            let here = match &rows[j].marker {
                Some(m) => same_text(m.as_str(), "here"),
                None => false,
            };
            if here {
                let mut row = rows[j].duplicate();
                row.marker = None;
                rows.set(j, row);
            }
            j += 1;
        }
        assert(row_views(rows@) =~= base.map_values(|r: RowView| unmarked(r)));
    }
    let ghost cleared = row_views(rows@);
    // Whichever of the two is true goes first: the group should open with the
    // answer, not with the option that was not taken.
    let n = rows.len();
    let mut at: usize = n;
    if showing {
        let mut k: usize = 0;
        let mut found = false;
        while k < n && !found
            invariant
                k <= n,
                n == rows@.len(),
                cleared == row_views(rows@),
                forall|j: int| 0 <= j < k ==> !in_here()(#[trigger] cleared[j]),
                found ==> k < n && in_here()(cleared[k as int]),
            decreases n - k + if found { 0int } else { 1int },
        {
            if is_here(&rows[k]) {
                found = true;
            } else {
                k += 1;
            }
        }
        proof {
            if found {
                crate::text::lemma_first_index_is(cleared, in_here(), k as int);
            } else {
                crate::text::lemma_first_index(cleared, in_here());
            }
        }
        if found {
            at = k;
        }
    } else {
        let mut k: usize = n;
        let mut found = false;
        while k > 0 && !found
            invariant
                k <= n,
                n == rows@.len(),
                cleared == row_views(rows@),
                forall|j: int| k <= j < n ==> !in_here()(#[trigger] cleared[j]),
                found ==> k > 0 && in_here()(cleared[k - 1]),
            decreases k + if found { 0int } else { 1int },
        {
            if is_here(&rows[k - 1]) {
                found = true;
            } else {
                k -= 1;
            }
        }
        proof {
            if found {
                lemma_last_index_is(cleared, in_here(), k - 1);
            } else {
                lemma_last_index(cleared, in_here());
            }
        }
        if found {
            at = k;
        }
    }
    let ghost at_spec = if showing {
        match crate::text::first_index(cleared, in_here()) {
            Some(k) => k,
            None => cleared.len() as int,
        }
    } else {
        match last_index(cleared, in_here()) {
            Some(k) => k + 1,
            None => cleared.len() as int,
        }
    };
    assert(at as int == at_spec);
    rows.insert(at, Row::toggle(ALL, "Show this window on all workspaces", showing));
    assert(row_views(rows@) =~= cleared.insert(
        at as int,
        toggle_view(ALL@, "Show this window on all workspaces"@, showing),
    ));
    if !window.bundle.as_str().is_empty() {
        // Finder opens and closes windows all day; following one of them is
        // useless. Following the application is the thing you mean.
        let mut label = chars_of("Show every ");
        crate::text::append_chars(&mut label, chars_of(window.app.as_str()).as_slice());
        crate::text::append_chars(&mut label, chars_of(" window on all workspaces").as_slice());
        let label = string_of(label.as_slice());
        let ghost with_all = row_views(rows@);
        let m = rows.len();
        assert(at < m);
        // Just past the current workspace's group, which the setting above
        // now belongs to.
        let mut k: usize = m;
        let mut found = false;
        while k > 0 && !found
            invariant
                k <= m,
                m == rows@.len(),
                with_all == row_views(rows@),
                forall|j: int| k <= j < m ==> !in_here()(#[trigger] with_all[j]),
                found ==> k > 0 && in_here()(with_all[k - 1]),
            decreases k + if found { 0int } else { 1int },
        {
            if is_here(&rows[k - 1]) {
                found = true;
            } else {
                k -= 1;
            }
        }
        proof {
            if found {
                lemma_last_index_is(with_all, in_here(), k - 1);
            } else {
                lemma_last_index(with_all, in_here());
            }
        }
        let app_at = if found { k } else { m };
        assert(app_at as int == after_here(with_all));
        let mut app_row = Row::toggle(ALL_APP, label.as_str(), app_everywhere);
        app_row.section = None;
        rows.insert(app_at, app_row);
        assert(row_views(rows@) =~= with_all.insert(
            app_at as int,
            app_toggle_view(window.app@, app_everywhere),
        ));
    }
    rows
}

// ---------------------------------------------------------------------------
// What an answer asks for
// ---------------------------------------------------------------------------

/// What a chosen row asks the flow to do next.
pub enum Choice {
    /// Nothing more to do: this is the outcome.
    Finish(Outcome),
    /// Move to a name typed in the search box, already made legal.
    Typed(String),
    /// Ask for a new task's name.
    AskName,
    /// Move to the task a row names.
    Target(String),
}

pub enum ChoiceView {
    Finish(OutcomeView),
    Typed(Seq<char>),
    AskName,
    Target(Seq<char>),
}

impl View for Choice {
    type V = ChoiceView;

    open spec fn view(&self) -> ChoiceView {
        match self {
            Choice::Finish(o) => ChoiceView::Finish(o@),
            Choice::Typed(n) => ChoiceView::Typed(n@),
            Choice::AskName => ChoiceView::AskName,
            Choice::Target(t) => ChoiceView::Target(t@),
        }
    }
}

/// Whether a chosen id names a row that is somewhere to go.
pub open spec fn names_target(rows: Seq<RowView>, c: Seq<char>) -> bool {
    exists|k: int| 0 <= k < rows.len() && rows[k].id == c && rows[k].marker != Some("action"@)
}

/// The name typed in the search box, made legal: an empty result is refused
/// with what was typed.
pub open spec fn typed_choice(typed: Seq<char>) -> ChoiceView {
    if sanitised(typed).len() == 0 {
        ChoiceView::Finish(OutcomeView::EmptyName { raw: typed })
    } else {
        ChoiceView::Typed(sanitised(typed))
    }
}

/// What an answer to the one-window question asks for.
pub open spec fn one_choice(choice: Seq<char>, rows: Seq<RowView>, showing: bool, app_everywhere: bool) -> ChoiceView {
    if choice != TO_ONE@ && is_mode_text(choice) {
        ChoiceView::Finish(OutcomeView::SwitchMode { to: choice })
    } else if choice == TO_ONE@ {
        // Already here; nothing to switch to.
        ChoiceView::Finish(OutcomeView::Cancelled)
    } else if strip_prefix(choice, PIN@) is Some {
        ChoiceView::Finish(OutcomeView::PinToggled { workspace: strip_prefix(choice, PIN@).unwrap() })
    } else if choice == ALL@ {
        // A standing instruction, not a destination.
        ChoiceView::Finish(
            if showing {
                OutcomeView::Unfollowing { whole_app: false }
            } else {
                OutcomeView::Following { whole_app: false }
            },
        )
    } else if choice == ALL_APP@ {
        ChoiceView::Finish(
            if app_everywhere {
                OutcomeView::Unfollowing { whole_app: true }
            } else {
                OutcomeView::Following { whole_app: true }
            },
        )
    } else if strip_prefix(choice, NEW_NAMED@) is Some {
        typed_choice(strip_prefix(choice, NEW_NAMED@).unwrap())
    } else if choice == NEW@ {
        ChoiceView::AskName
    } else if names_target(rows, choice) {
        ChoiceView::Target(choice)
    } else {
        ChoiceView::Finish(OutcomeView::Heading)
    }
}

fn is_target(rows: &[Row], choice: &str) -> (r: bool)
    ensures
        r == names_target(row_views(rows@), choice@),
{
    let mut i: usize = 0;
    while i < rows.len()
        invariant
            i <= rows@.len(),
            forall|k: int|
                0 <= k < i ==> !(row_views(rows@)[k].id == choice@ && row_views(rows@)[k].marker
                    != Some("action"@)),
        decreases rows.len() - i,
    {
        let r = &rows[i];
        let action = match &r.marker {
            Some(m) => same_text(m.as_str(), "action"),
            None => false,
        };
        assert(row_views(rows@)[i as int] == r@);
        if same_text(r.id.as_str(), choice) && !action {
            return true;
        }
        i += 1;
    }
    false
}

fn typed_name(text: &[char]) -> (r: Choice)
    ensures
        r@ == typed_choice(text@),
{
    let raw = string_of(text);
    let name = sanitise_workspace(raw.as_str());
    if name.as_str().is_empty() {
        Choice::Finish(Outcome::EmptyName { raw })
    } else {
        Choice::Typed(name)
    }
}

/// Read an answer to the one-window question.
pub fn decide_one(choice: &str, rows: &[Row], showing: bool, app_everywhere: bool) -> (r: Choice)
    ensures
        r@ == one_choice(choice@, row_views(rows@), showing, app_everywhere),
{
    if !same_text(choice, TO_ONE) && is_mode(choice) {
        return Choice::Finish(Outcome::SwitchMode { to: owned(choice) });
    }
    if same_text(choice, TO_ONE) {
        return Choice::Finish(Outcome::Cancelled);
    }
    let c = chars_of(choice);
    match strip_prefix_exec(c.as_slice(), chars_of(PIN).as_slice()) {
        Some(ws) => return Choice::Finish(Outcome::PinToggled { workspace: string_of(ws.as_slice()) }),
        None => {},
    }
    if same_text(choice, ALL) {
        return Choice::Finish(
            if showing {
                Outcome::Unfollowing { whole_app: false }
            } else {
                Outcome::Following { whole_app: false }
            },
        );
    }
    if same_text(choice, ALL_APP) {
        return Choice::Finish(
            if app_everywhere {
                Outcome::Unfollowing { whole_app: true }
            } else {
                Outcome::Following { whole_app: true }
            },
        );
    }
    // Named in the search box: no second dialog, and the name is whatever was
    // typed, put through the same rules as any other.
    match strip_prefix_exec(c.as_slice(), chars_of(NEW_NAMED).as_slice()) {
        Some(t) => return typed_name(t.as_slice()),
        None => {},
    }
    if same_text(choice, NEW) {
        return Choice::AskName;
    }
    if is_target(rows, choice) {
        return Choice::Target(owned(choice));
    }
    Choice::Finish(Outcome::Heading)
}

/// Two lists, one after the other.
pub fn joined(a: &[String], b: &[String]) -> (r: Vec<String>)
    ensures
        views(r@) == views(a@) + views(b@),
{
    let mut r: Vec<String> = Vec::new();
    let mut i: usize = 0;
    while i < a.len()
        invariant
            i <= a@.len(),
            views(r@) == views(a@).take(i as int),
        decreases a.len() - i,
    {
        let ghost before = views(r@);
        r.push(copy_text(&a[i]));
        assert(views(r@) =~= before.push(a@[i as int]@));
        assert(views(a@).take(i + 1) =~= views(a@).take(i as int).push(a@[i as int]@));
        i += 1;
    }
    let mut j: usize = 0;
    while j < b.len()
        invariant
            j <= b@.len(),
            i == a@.len(),
            views(r@) == views(a@) + views(b@).take(j as int),
        decreases b.len() - j,
    {
        let ghost before = views(r@);
        r.push(copy_text(&b[j]));
        assert(views(r@) =~= before.push(b@[j as int]@));
        assert(views(b@).take(j + 1) =~= views(b@).take(j as int).push(b@[j as int]@));
        j += 1;
    }
    assert(views(a@).take(a@.len() as int) =~= views(a@));
    assert(views(b@).take(b@.len() as int) =~= views(b@));
    r
}

/// `here` is the workspace being looked at as the window manager answered,
/// blank when it did not.
pub open spec fn asked_here<W: WindowManager>(wm: &W, here: Seq<char>) -> bool {
    exists|seen: Option<Seq<char>>| #[trigger] wm.here_answer(seen) && here == here_of(seen)
}

/// `held` is what the window manager answered each workspace holds, nothing
/// when it did not answer.
pub open spec fn asked_held<W: WindowManager>(wm: &W, held: NameMap<Occupancy>) -> bool {
    exists|occupancy: Option<NameMap<Occupancy>>|
        #[trigger] wm.occupancy_answer(occupancy) && match occupancy {
            Some(o) => held == o,
            None => held.keys().len() == 0,
        }
}

/// `listed` is the workspaces the window manager listed, none when it did
/// not answer.
pub open spec fn asked_listed<W: WindowManager>(wm: &W, listed: Seq<Seq<char>>) -> bool {
    exists|listing: Option<Seq<Seq<char>>>|
        #[trigger] wm.workspaces_answer(listing) && listed == names_of(listing)
}

/// The workspace being looked at, as the window manager answered; blank when
/// it did not.
pub open spec fn here_of(seen: Option<Seq<char>>) -> Seq<char> {
    match seen {
        Some(h) => h,
        None => Seq::<char>::empty(),
    }
}

/// The names a listing gave, none when there was no answer.
pub open spec fn names_of(listing: Option<Seq<Seq<char>>>) -> Seq<Seq<char>> {
    match listing {
        Some(v) => v,
        None => Seq::<Seq<char>>::empty(),
    }
}

fn names_or_empty(o: Option<Vec<String>>) -> (r: Vec<String>)
    ensures
        o matches Some(v) ==> r@ == v@,
        o is None ==> r@.len() == 0,
{
    match o {
        Some(v) => v,
        None => Vec::new(),
    }
}

// ---------------------------------------------------------------------------
// Sling one window
// ---------------------------------------------------------------------------

/// What holds of every run of the one-window flow, whatever the window
/// manager and the dialog answered.
pub open spec fn one_run_holds(r: Run, follow: Following) -> bool {
    &&& r.brought@.len() == 0
    &&& (r.window is None <==> r.outcome@ is NoWindow)
    &&& (r.outcome@ is OwnDialog <==> (r.window matches Some(w) && w.app@ == DIALOG_APP@))
    &&& (r.outcome@ is OwnDialog || r.outcome@ is NoWindow) ==> r.occupancy is None
    &&& match r.outcome@ {
        OutcomeView::Moved { to, created } => r.window matches Some(w) && (created || (to
            != w.workspace@ && (r.occupancy matches Some(o) ==> o.has(to)))),
        OutcomeView::MoveFailed { to } => r.window is Some,
        OutcomeView::SameWorkspace => r.window is Some,
        OutcomeView::EmptyName { raw } => sanitised(raw).len() == 0,
        OutcomeView::SwitchMode { to } => is_mode_text(to) && to != TO_ONE@,
        OutcomeView::Following { whole_app } => r.window matches Some(w) && if whole_app {
            !(w.bundle@.len() > 0 && views(follow.apps@).contains(w.bundle@))
        } else {
            !views(follow.windows@).contains(w.id@)
        },
        OutcomeView::Unfollowing { whole_app } => r.window matches Some(w) && if whole_app {
            w.bundle@.len() > 0 && views(follow.apps@).contains(w.bundle@)
        } else {
            views(follow.windows@).contains(w.id@)
        },
        OutcomeView::Jumped { .. } => false,
        OutcomeView::Focused { .. } => false,
        OutcomeView::RefocusFailed => false,
        _ => true,
    }
}

/// Whether the window is shown everywhere by name, and whether its whole
/// application is.
fn settings_for(window: &Window, follow: Following) -> (r: (bool, bool))
    ensures
        r.0 == views(follow.windows@).contains(window.id@),
        r.1 == (window.bundle@.len() > 0 && views(follow.apps@).contains(window.bundle@)),
{
    let showing = names_any(follow.windows, window.id.as_str());
    let app_everywhere = !window.bundle.as_str().is_empty() && names_any(
        follow.apps,
        window.bundle.as_str(),
    );
    (showing, app_everywhere)
}

/// Move the window to `target` unless it is there already; `created` when
/// the window manager's answer held no such workspace.
fn move_to<W: WindowManager>(
    wm: &W,
    window: Window,
    target: String,
    occupancy: Option<NameMap<Occupancy>>,
) -> (r: Run)
    ensures
        r.window == Some(window),
        r.occupancy == occupancy,
        r.brought@.len() == 0,
        target@ == window.workspace@ ==> r.outcome@ is SameWorkspace,
        target@ != window.workspace@ ==> (r.outcome@ == OutcomeView::MoveFailed { to: target@ }
            || r.outcome@ == OutcomeView::Moved {
            to: target@,
            created: occupancy matches Some(o) && !o.has(target@),
        }),
        exists|ok: bool|
            #[trigger] moved_as(wm, window, target@, occupancy, ok, r.outcome@),
{
    if same_text(target.as_str(), window.workspace.as_str()) {
        let r = Run { window: Some(window), occupancy, outcome: Outcome::SameWorkspace, brought: Vec::new() };
        assert(moved_as(wm, window, target@, occupancy, false, r.outcome@));
        return r;
    }
    // Named, not focused. The dialog stealing focus stops mattering, and a
    // window that cannot take focus — minimised, say — moves like any other.
    if !wm.move_window(window.id.as_str(), target.as_str()) {
        let r = Run {
            window: Some(window),
            occupancy,
            outcome: Outcome::MoveFailed { to: target },
            brought: Vec::new(),
        };
        assert(moved_as(wm, window, target@, occupancy, false, r.outcome@));
        return r;
    }
    let created = match &occupancy {
        Some(o) => !o.contains_key(target.as_str()),
        None => false,
    };
    let r = Run {
        window: Some(window),
        occupancy,
        outcome: Outcome::Moved { to: target, created },
        brought: Vec::new(),
    };
    assert(moved_as(wm, window, target@, occupancy, true, r.outcome@));
    r
}

/// What sending `w` to `target` comes to, when a move that was made came back
/// `ok`: nothing to do where it already is; otherwise moved, and a new task
/// when the known workspaces did not hold it, or failed.
pub open spec fn move_outcome(
    w: Window,
    target: Seq<char>,
    held: Option<NameMap<Occupancy>>,
    ok: bool,
) -> OutcomeView {
    if target == w.workspace@ {
        OutcomeView::SameWorkspace
    } else if ok {
        OutcomeView::Moved { to: target, created: held matches Some(o) && !o.has(target) }
    } else {
        OutcomeView::MoveFailed { to: target }
    }
}

/// Sending `w` to `target` came to `outcome`, the move — when there was one —
/// having come back `ok` from the window manager.
pub open spec fn moved_as<W: WindowManager>(
    wm: &W,
    w: Window,
    target: Seq<char>,
    held: Option<NameMap<Occupancy>>,
    ok: bool,
    outcome: OutcomeView,
) -> bool {
    &&& target != w.workspace@ ==> wm.move_answer(w.id@, target, ok)
    &&& outcome == move_outcome(w, target, held, ok)
}

/// Whether a window is shown everywhere by name.
pub open spec fn shows_window(follow: Following, w: Window) -> bool {
    views(follow.windows@).contains(w.id@)
}

/// Whether a window's whole application is shown everywhere.
pub open spec fn shows_app(follow: Following, w: Window) -> bool {
    w.bundle@.len() > 0 && views(follow.apps@).contains(w.bundle@)
}

/// The rows offered for a focused window, given what each workspace holds
/// (`held`) and which workspaces the window manager listed (`listed`).
pub open spec fn one_rows_for(
    w: Window,
    held: Option<NameMap<Occupancy>>,
    listed: Seq<Seq<char>>,
    cfg: Config,
    cached: Seq<Seq<char>>,
    follow: Following,
    pins: Seq<Seq<char>>,
) -> Seq<RowView> {
    let groups = picker::menu_groups(
        held,
        views(cfg.known@),
        cached + listed,
        w.workspace@,
        views(cfg.order.prefixes@),
        cfg.labels,
        pins,
    );
    let menu = seq![Row::action_view(NEW@, NEW@)] + picker::group_rows(groups, held, w.workspace@, pins);
    one_rows(w, menu, shows_window(follow, w), shows_app(follow, w))
}

/// The line under the title of the one-window question.
pub open spec fn one_heading(held: Option<NameMap<Occupancy>>) -> Seq<char> {
    if held is None {
        "AeroSpace is not answering — these are remembered names"@
    } else {
        ""@
    }
}

/// Slinging the focused window `w` came to `outcome`: the rows were offered
/// and `answer` picked; a new name, when one was asked for, was answered
/// `text`; and a move, when one was made, came back `moved`.
pub open spec fn one_sling<W: WindowManager, P: Prompt>(
    wm: &W,
    prompt: &P,
    w: Window,
    held: Option<NameMap<Occupancy>>,
    rows: Seq<RowView>,
    follow: Following,
    answer: Option<Seq<char>>,
    text: Option<Seq<char>>,
    moved: bool,
    outcome: OutcomeView,
) -> bool {
    &&& prompt.rows_answer(rows, "Sling window"@, one_heading(held), answer)
    &&& match answer {
        None => outcome == OutcomeView::Cancelled,
        Some(c) => match one_choice(c, rows, shows_window(follow, w), shows_app(follow, w)) {
            ChoiceView::Finish(o) => outcome == o,
            ChoiceView::Typed(n) => wm.move_answer(w.id@, n, moved) && outcome == if moved {
                OutcomeView::Moved { to: n, created: true }
            } else {
                OutcomeView::MoveFailed { to: n }
            },
            ChoiceView::AskName => prompt.text_answer(
                "Sling to a new workspace"@,
                "Name the new workspace"@,
                text,
            ) && match text {
                None => outcome == OutcomeView::Cancelled,
                Some(raw) => if sanitised(raw).len() == 0 {
                    outcome == OutcomeView::EmptyName { raw }
                } else {
                    moved_as(wm, w, sanitised(raw), held, moved, outcome)
                },
            },
            ChoiceView::Target(t) => moved_as(wm, w, t, held, moved, outcome),
        },
    }
}

pub fn run<W: WindowManager, P: Prompt>(
    wm: &W,
    prompt: &P,
    cfg: &Config,
    cached: &[String],
    follow: Following,
    pins: &[String],
) -> (r: Run)
    ensures
        one_run_holds(r, follow),
        wm.focused_answer(r.window),
        r.window is Some && r.window->0.app@ != DIALOG_APP@ ==> wm.occupancy_answer(r.occupancy),
        r.window is Some && r.window->0.app@ != DIALOG_APP@ ==> exists|
            listing: Option<Seq<Seq<char>>>,
            answer: Option<Seq<char>>,
            text: Option<Seq<char>>,
            moved: bool,
        |
            wm.workspaces_answer(listing) && #[trigger] one_sling(
                wm,
                prompt,
                r.window->0,
                r.occupancy,
                one_rows_for(
                    r.window->0,
                    r.occupancy,
                    names_of(listing),
                    *cfg,
                    views(cached@),
                    follow,
                    views(pins@),
                ),
                follow,
                answer,
                text,
                moved,
                r.outcome@,
            ),
{
    let window = match wm.focused_window() {
        Some(w) => w,
        None => {
            return Run { window: None, occupancy: None, outcome: Outcome::NoWindow, brought: Vec::new() };
        },
    };
    // System Events owns the dialog sling draws. Slinging it would move a
    // dialog into a task and leave the real window where it was.
    if same_text(window.app.as_str(), DIALOG_APP) {
        return Run {
            window: Some(window),
            occupancy: None,
            outcome: Outcome::OwnDialog,
            brought: Vec::new(),
        };
    }
    let occupancy = wm.occupancy();
    // Everything AeroSpace knows about, which with persistent-workspaces is
    // every task — including the ones holding nothing yet.
    let asked = wm.all_workspaces();
    let ghost listing = crate::dialog::opt_views(asked);
    let known_to_aerospace = names_or_empty(asked);
    let names = joined(cached, known_to_aerospace.as_slice());
    let held = occupancy.as_ref();
    proof {
        assert(picker::held_value(held) == occupancy) by {
            match occupancy {
                Some(o) => {},
                None => {},
            }
        }
    }
    let menu = picker::build_menu(
        held,
        cfg.known.as_slice(),
        names.as_slice(),
        window.workspace.as_str(),
        cfg.order.prefixes.as_slice(),
        &cfg.labels,
        pins,
    );
    // Sits with the current workspace, because both answer the same question:
    // where this window lives. An ordinary row, so it can carry a tick.
    let (showing, app_everywhere) = settings_for(&window, follow);
    let rows = rows_for_one(&window, menu.rows.as_slice(), showing, app_everywhere);
    let ghost listed = names_of(listing);
    assert(views(known_to_aerospace@) == listed);
    let ghost rv = one_rows_for(window, occupancy, listed, *cfg, views(cached@), follow, views(pins@));
    proof {
        assert(row_views(rows@) == rv);
    }
    // The window itself is shown in the header, icon and all, so this only
    // has to carry anything unusual.
    let heading = if occupancy.is_none() {
        "AeroSpace is not answering — these are remembered names"
    } else {
        ""
    };
    assert(heading@ == one_heading(occupancy));
    let answer = prompt.choose_rows(rows.as_slice(), "Sling window", heading);
    let ghost a = opt_text(answer);
    let choice = match answer {
        Some(c) => c,
        None => {
            let r = Run { window: Some(window), occupancy, outcome: Outcome::Cancelled, brought: Vec::new() };
            assert(one_sling(wm, prompt, window, occupancy, rv, follow, a, None, false, r.outcome@));
            return r;
        },
    };
    proof {
        reveal_strlit("System Events");
    }
    match decide_one(choice.as_str(), rows.as_slice(), showing, app_everywhere) {
        Choice::Finish(outcome) => {
            proof {
                reveal_strlit("__once__");
            }
            let r = Run { window: Some(window), occupancy, outcome, brought: Vec::new() };
            assert(one_sling(wm, prompt, window, occupancy, rv, follow, a, None, false, r.outcome@));
            r
        },
        Choice::Typed(name) => {
            if !wm.move_window(window.id.as_str(), name.as_str()) {
                let r = Run {
                    window: Some(window),
                    occupancy,
                    outcome: Outcome::MoveFailed { to: name },
                    brought: Vec::new(),
                };
                assert(one_sling(wm, prompt, window, occupancy, rv, follow, a, None, false, r.outcome@));
                return r;
            }
            let r = Run {
                window: Some(window),
                occupancy,
                outcome: Outcome::Moved { to: name, created: true },
                brought: Vec::new(),
            };
            assert(one_sling(wm, prompt, window, occupancy, rv, follow, a, None, true, r.outcome@));
            r
        },
        Choice::AskName => {
            let typed = prompt.ask_text("Sling to a new workspace", "Name the new workspace");
            let ghost t = opt_text(typed);
            let raw = match typed {
                Some(raw) => raw,
                None => {
                    let r = Run {
                        window: Some(window),
                        occupancy,
                        outcome: Outcome::Cancelled,
                        brought: Vec::new(),
                    };
                    assert(one_sling(wm, prompt, window, occupancy, rv, follow, a, t, false, r.outcome@));
                    return r;
                },
            };
            let name = sanitise_workspace(raw.as_str());
            if name.as_str().is_empty() {
                let r = Run {
                    window: Some(window),
                    occupancy,
                    outcome: Outcome::EmptyName { raw },
                    brought: Vec::new(),
                };
                assert(one_sling(wm, prompt, window, occupancy, rv, follow, a, t, false, r.outcome@));
                return r;
            }
            let r = move_to(wm, window, name, occupancy);
            proof {
                let ok = choose|ok: bool| #[trigger] moved_as(wm, window, name@, occupancy, ok, r.outcome@);
                assert(one_sling(wm, prompt, window, occupancy, rv, follow, a, t, ok, r.outcome@));
            }
            r
        },
        Choice::Target(target) => {
            let ghost tv = target@;
            let r = move_to(wm, window, target, occupancy);
            proof {
                let ok = choose|ok: bool| #[trigger] moved_as(wm, window, tv, occupancy, ok, r.outcome@);
                assert(one_sling(wm, prompt, window, occupancy, rv, follow, a, None, ok, r.outcome@));
            }
            r
        },
    }
}

// ---------------------------------------------------------------------------
// Several windows at once
// ---------------------------------------------------------------------------

/// The result of moving several windows at once.
pub struct Batch {
    pub target: Option<String>,
    pub results: Vec<(Window, Outcome)>,
    /// Set when the batch never reached the point of moving anything.
    pub aborted: Option<Outcome>,
}

/// How many of the results are moves.
pub open spec fn moved_count(results: Seq<(Window, Outcome)>) -> nat
    decreases results.len(),
{
    if results.len() == 0 {
        0
    } else {
        moved_count(results.drop_last()) + if results.last().1@ is Moved {
            1nat
        } else {
            0nat
        }
    }
}

impl Batch {
    fn stopped(outcome: Outcome) -> (b: Self)
        ensures
            b.target is None,
            b.results@.len() == 0,
            b.aborted == Some(outcome),
    {
        Batch { target: None, results: Vec::new(), aborted: Some(outcome) }
    }

    pub fn moved(&self) -> (n: usize)
        ensures
            n == moved_count(self.results@),
    {
        let mut n: usize = 0;
        let mut i: usize = 0;
        while i < self.results.len()
            invariant
                i <= self.results@.len(),
                n == moved_count(self.results@.take(i as int)),
                n <= i,
            decreases self.results.len() - i,
        {
            proof {
                assert(self.results@.take(i + 1).drop_last() =~= self.results@.take(i as int));
            }
            match &self.results[i].1 {
                Outcome::Moved { .. } => {
                    n += 1;
                },
                _ => {},
            }
            i += 1;
        }
        assert(self.results@.take(self.results@.len() as int) =~= self.results@);
        n
    }
}

/// Every window but sling's own dialog.
pub open spec fn not_dialog() -> spec_fn(Window) -> bool {
    |w: Window| w.app@ != DIALOG_APP@
}

pub fn without_dialog(all: &[Window]) -> (r: Vec<Window>)
    ensures
        r@ == all@.filter(not_dialog()),
{
    let mut r: Vec<Window> = Vec::new();
    let mut i: usize = 0;
    while i < all.len()
        invariant
            i <= all@.len(),
            r@ == all@.take(i as int).filter(not_dialog()),
        decreases all.len() - i,
    {
        proof {
            assert(all@.take(i + 1) =~= all@.take(i as int).push(all@[i as int]));
            all@.take(i as int).lemma_filter_push(all@[i as int], not_dialog());
        }
        if !same_text(all[i].app.as_str(), DIALOG_APP) {
            r.push(all[i].duplicate());
        }
        i += 1;
    }
    assert(all@.take(all@.len() as int) =~= all@);
    r
}

/// Whether a picked line is a tab other than `showing`.
pub open spec fn other_tab(showing: Seq<char>) -> spec_fn(Seq<char>) -> bool {
    |p: Seq<char>| p != showing && is_mode_text(p)
}

/// The first picked line that is a tab other than the one showing.
pub fn tab_picked(picked: &[String], showing: &str) -> (r: Option<String>)
    ensures
        match crate::text::first_index(views(picked@), other_tab(showing@)) {
            Some(k) => r matches Some(t) && t@ == views(picked@)[k],
            None => r is None,
        },
{
    let mut i: usize = 0;
    while i < picked.len()
        invariant
            i <= picked@.len(),
            forall|j: int| 0 <= j < i ==> !other_tab(showing@)(#[trigger] views(picked@)[j]),
        decreases picked.len() - i,
    {
        if !same_text(picked[i].as_str(), showing) && is_mode(picked[i].as_str()) {
            proof {
                crate::text::lemma_first_index_is(views(picked@), other_tab(showing@), i as int);
            }
            return Some(copy_text(&picked[i]));
        }
        i += 1;
    }
    proof {
        crate::text::lemma_first_index(views(picked@), other_tab(showing@));
    }
    None
}

/// Whether a window's id was picked.
pub open spec fn picked_window(picked: Seq<Seq<char>>) -> spec_fn(Window) -> bool {
    |w: Window| picked.contains(w.id@)
}

/// The windows of a listing that were picked, sling's own dialog left out,
/// in list order.
pub open spec fn picked_from_listing(listed: Seq<Window>, picked: Seq<Seq<char>>) -> Seq<Window> {
    listed.filter(not_dialog()).filter(picked_window(picked))
}

/// The windows whose ids were picked, in list order.
pub fn chosen_windows(windows: &[Window], picked: &[String]) -> (r: Vec<Window>)
    ensures
        r@ == windows@.filter(picked_window(views(picked@))),
{
    let ghost keep = picked_window(views(picked@));
    let mut r: Vec<Window> = Vec::new();
    let mut i: usize = 0;
    while i < windows.len()
        invariant
            i <= windows@.len(),
            keep == picked_window(views(picked@)),
            r@ == windows@.take(i as int).filter(keep),
        decreases windows.len() - i,
    {
        proof {
            assert(windows@.take(i + 1) =~= windows@.take(i as int).push(windows@[i as int]));
            windows@.take(i as int).lemma_filter_push(windows@[i as int], keep);
        }
        if names_any(picked, windows[i].id.as_str()) {
            r.push(windows[i].duplicate());
        }
        i += 1;
    }
    assert(windows@.take(windows@.len() as int) =~= windows@);
    r
}

/// What an answer to "where do they go?" asks for.
pub open spec fn many_choice(choice: Seq<char>, rows: Seq<RowView>) -> ChoiceView {
    if choice == ALL@ {
        // Tag the selection instead of moving it.
        ChoiceView::Finish(OutcomeView::Following { whole_app: false })
    } else if strip_prefix(choice, NEW_NAMED@) is Some {
        typed_choice(strip_prefix(choice, NEW_NAMED@).unwrap())
    } else if choice == NEW@ {
        ChoiceView::AskName
    } else if names_target(rows, choice) {
        ChoiceView::Target(choice)
    } else {
        ChoiceView::Finish(OutcomeView::Heading)
    }
}

/// Read an answer to "where do they go?".
pub fn decide_many(choice: &str, rows: &[Row]) -> (r: Choice)
    ensures
        r@ == many_choice(choice@, row_views(rows@)),
{
    if same_text(choice, ALL) {
        return Choice::Finish(Outcome::Following { whole_app: false });
    }
    let c = chars_of(choice);
    match strip_prefix_exec(c.as_slice(), chars_of(NEW_NAMED).as_slice()) {
        Some(t) => return typed_name(t.as_slice()),
        None => {},
    }
    if same_text(choice, NEW) {
        return Choice::AskName;
    }
    if is_target(rows, choice) {
        return Choice::Target(owned(choice));
    }
    Choice::Finish(Outcome::Heading)
}

/// "1 window looking for a home", "3 windows looking for a home".
pub open spec fn homeless_heading(n: nat) -> Seq<char> {
    crate::text::decimal(n) + " window"@ + (if n == 1 {
        ""@
    } else {
        "s"@
    }) + " looking for a home"@
}

pub fn homeless(n: usize) -> (r: String)
    ensures
        r@ == homeless_heading(n as nat),
{
    let mut out = crate::text::decimal_chars(n);
    crate::text::append_chars(&mut out, chars_of(" window").as_slice());
    if n != 1 {
        out.push('s');
    }
    crate::text::append_chars(&mut out, chars_of(" looking for a home").as_slice());
    proof {
        reveal_strlit("");
        reveal_strlit("s");
        if n == 1 {
            assert(out@ =~= homeless_heading(n as nat));
        } else {
            assert(out@ =~= homeless_heading(n as nat));
        }
    }
    string_of(out.as_slice())
}

/// What a batch result may be, for a window sent to `target`.
pub open spec fn sent(w: Window, o: OutcomeView, target: Seq<char>) -> bool {
    ||| (o is SameWorkspace && w.workspace@ == target)
    ||| o == OutcomeView::MoveFailed { to: target }
    ||| (o matches OutcomeView::Moved { to, created } && to == target && (created || w.workspace@
        != target))
}

/// What holds of every batch, whatever the window manager and the dialog
/// answered.
pub open spec fn batch_holds(b: Batch, showing: Seq<char>) -> bool {
    &&& b.aborted is Some ==> b.results@.len() == 0 && b.target is None
    &&& match b.aborted {
        Some(o) => match o@ {
            OutcomeView::NoWindow | OutcomeView::Cancelled | OutcomeView::Heading => true,
            OutcomeView::SwitchMode { to } => is_mode_text(to) && to != showing,
            OutcomeView::EmptyName { raw } => sanitised(raw).len() == 0,
            _ => false,
        },
        None => forall|k: int|
            0 <= k < b.results@.len() ==> {
                let (w, o) = #[trigger] b.results@[k];
                &&& w.app@ != DIALOG_APP@
                &&& match b.target {
                    None => o@ == OutcomeView::Following { whole_app: false },
                    Some(t) => sent(w, o@, t@),
                }
            },
    }
}

/// Send every chosen window to `target`. `fresh` says the target was just
/// named, so every move creates it.
fn send_all<W: WindowManager>(
    wm: &W,
    chosen: Vec<Window>,
    target: &String,
    occupancy: &NameMap<Occupancy>,
    fresh: bool,
) -> (results: Vec<(Window, Outcome)>)
    requires
        forall|k: int| 0 <= k < chosen@.len() ==> (#[trigger] chosen@[k]).app@ != DIALOG_APP@,
    ensures
        results@.len() == chosen@.len(),
        forall|k: int|
            0 <= k < results@.len() ==> {
                let (w, o) = #[trigger] results@[k];
                &&& w == chosen@[k]
                &&& sent(w, o@, target@)
                &&& (fresh ==> !(o@ is SameWorkspace))
            },
        all_sent(wm, results@, chosen@, target@, *occupancy, fresh),
{
    let mut results: Vec<(Window, Outcome)> = Vec::new();
    let ghost mut oks: Seq<bool> = Seq::empty();
    let mut i: usize = 0;
    while i < chosen.len()
        invariant
            i <= chosen@.len(),
            results@.len() == i,
            forall|k: int|
                0 <= k < results@.len() ==> {
                    let (w, o) = #[trigger] results@[k];
                    &&& w == chosen@[k]
                    &&& sent(w, o@, target@)
                    &&& (fresh ==> !(o@ is SameWorkspace))
                },
            oks.len() == results@.len(),
            forall|k: int|
                0 <= k < results@.len() ==> #[trigger] sent_as(
                    wm,
                    results@[k].0,
                    target@,
                    *occupancy,
                    fresh,
                    oks[k],
                    results@[k].1@,
                ),
        decreases chosen.len() - i,
    {
        let window = chosen[i].duplicate();
        let mut ok = false;
        let outcome = if !fresh && same_text(window.workspace.as_str(), target.as_str()) {
            Outcome::SameWorkspace
        } else if !wm.move_window(window.id.as_str(), target.as_str()) {
            Outcome::MoveFailed { to: copy_text(target) }
        } else {
            ok = true;
            let created = fresh || !occupancy.contains_key(target.as_str());
            Outcome::Moved { to: copy_text(target), created }
        };
        assert(sent_as(wm, window, target@, *occupancy, fresh, ok, outcome@));
        let ghost before = results@;
        let ghost before_oks = oks;
        results.push((window, outcome));
        proof {
            oks = oks.push(ok);
            assert forall|k: int| 0 <= k < results@.len() implies #[trigger] sent_as(
                wm,
                results@[k].0,
                target@,
                *occupancy,
                fresh,
                oks[k],
                results@[k].1@,
            ) by {
                if k < before.len() {
                    assert(results@[k] == before[k]);
                    assert(oks[k] == before_oks[k]);
                }
            }
        }
        i += 1;
    }
    proof {
        assert forall|k: int| 0 <= k < results@.len() implies (#[trigger] results@[k]).0 == chosen@[k]
            && exists|ok: bool| #[trigger] sent_as(wm, results@[k].0, target@, *occupancy, fresh, ok, results@[k].1@) by {
            assert(sent_as(wm, results@[k].0, target@, *occupancy, fresh, oks[k], results@[k].1@));
        }
    }
    results
}

/// What sending `w` to `target` in a batch comes to, a move that was made
/// having come back `ok`. A freshly named target is never where `w` is.
pub open spec fn send_outcome(
    w: Window,
    target: Seq<char>,
    held: NameMap<Occupancy>,
    fresh: bool,
    ok: bool,
) -> OutcomeView {
    if !fresh && w.workspace@ == target {
        OutcomeView::SameWorkspace
    } else if ok {
        OutcomeView::Moved { to: target, created: fresh || !held.has(target) }
    } else {
        OutcomeView::MoveFailed { to: target }
    }
}

/// Sending `w` to `target` came to `o`, the move — when one was made —
/// having come back `ok` from the window manager.
pub open spec fn sent_as<W: WindowManager>(
    wm: &W,
    w: Window,
    target: Seq<char>,
    held: NameMap<Occupancy>,
    fresh: bool,
    ok: bool,
    o: OutcomeView,
) -> bool {
    &&& !(!fresh && w.workspace@ == target) ==> wm.move_answer(w.id@, target, ok)
    &&& o == send_outcome(w, target, held, fresh, ok)
}

/// Every chosen window was sent to `target`, in order.
pub open spec fn all_sent<W: WindowManager>(
    wm: &W,
    results: Seq<(Window, Outcome)>,
    chosen: Seq<Window>,
    target: Seq<char>,
    held: NameMap<Occupancy>,
    fresh: bool,
) -> bool {
    &&& results.len() == chosen.len()
    &&& forall|k: int|
        0 <= k < results.len() ==> (#[trigger] results[k]).0 == chosen[k] && exists|ok: bool|
            #[trigger] sent_as(wm, results[k].0, target, held, fresh, ok, results[k].1@)
}

/// A batch that stopped before moving anything, with this outcome.
pub open spec fn stopped_with(b: Batch, o: OutcomeView) -> bool {
    b.aborted matches Some(a) && a@ == o && b.target is None && b.results@.len() == 0
}

/// The window list the batch question offers.
pub open spec fn many_rows_for(windows: Seq<Window>, here: Seq<char>, follow: Following) -> Seq<
    RowView,
> {
    let groups = picker::window_groups(windows, here);
    let rows = picker::window_rows(groups, windows);
    tab_views(Mode::Many) + Seq::new(
        rows.len(),
        |k: int| picker::row_with_pin(rows[k], follows(follow, picker::window_flat(groups)[k])),
    )
}

/// The tasks the batch question offers, "all workspaces" second.
pub open spec fn many_targets_for(
    held: NameMap<Occupancy>,
    listed: Seq<Seq<char>>,
    cfg: Config,
    cached: Seq<Seq<char>>,
    pins: Seq<Seq<char>>,
) -> Seq<RowView> {
    let groups = picker::menu_groups(
        Some(held),
        views(cfg.known@),
        cached + listed,
        ""@,
        views(cfg.order.prefixes@),
        cfg.labels,
        pins,
    );
    (seq![Row::action_view(NEW@, NEW@)] + picker::group_rows(groups, Some(held), ""@, pins)).insert(
        1,
        Row::action_view(ALL@, picker::all_row_text(false)),
    )
}

/// What a batch comes to once windows were chosen, given the tasks offered,
/// the answer picked and the name typed, if one was asked for.
pub open spec fn many_sent<W: WindowManager, P: Prompt>(
    wm: &W,
    prompt: &P,
    chosen: Seq<Window>,
    held: NameMap<Occupancy>,
    targets: Seq<RowView>,
    answer: Option<Seq<char>>,
    text: Option<Seq<char>>,
    b: Batch,
) -> bool {
    &&& prompt.rows_answer(
        targets,
        "Sling several windows"@,
        homeless_heading(chosen.len()),
        answer,
    )
    &&& match answer {
        None => stopped_with(b, OutcomeView::Cancelled),
        Some(c) => match many_choice(c, targets) {
            ChoiceView::Finish(OutcomeView::Following { whole_app: false }) => {
                &&& b.target is None
                &&& b.aborted is None
                &&& brought_windows(b.results@) == chosen
                &&& forall|k: int|
                    0 <= k < b.results@.len() ==> (#[trigger] b.results@[k]).1@
                        == OutcomeView::Following { whole_app: false }
            },
            ChoiceView::Finish(o) => stopped_with(b, o),
            ChoiceView::Typed(n) => {
                &&& b.aborted is None
                &&& opt_text(b.target) == Some(n)
                &&& all_sent(wm, b.results@, chosen, n, held, true)
            },
            ChoiceView::AskName => prompt.text_answer(
                "Sling to a new workspace"@,
                "Name the new workspace"@,
                text,
            ) && match text {
                None => stopped_with(b, OutcomeView::Cancelled),
                Some(raw) => if sanitised(raw).len() == 0 {
                    stopped_with(b, OutcomeView::EmptyName { raw })
                } else {
                    &&& b.aborted is None
                    &&& opt_text(b.target) == Some(sanitised(raw))
                    &&& all_sent(wm, b.results@, chosen, sanitised(raw), held, false)
                },
            },
            ChoiceView::Target(t) => {
                &&& b.aborted is None
                &&& opt_text(b.target) == Some(t)
                &&& all_sent(wm, b.results@, chosen, t, held, false)
            },
        },
    }
}

/// What a batch comes to, given every answer: the windows listed, the
/// workspace being looked at, what each workspace holds, the workspaces
/// listed by name, the windows picked, the task picked and the name typed.
pub open spec fn many_done<W: WindowManager, P: Prompt>(
    wm: &W,
    prompt: &P,
    cfg: Config,
    cached: Seq<Seq<char>>,
    follow: Following,
    pins: Seq<Seq<char>>,
    listing: Option<Seq<Window>>,
    here: Seq<char>,
    held: NameMap<Occupancy>,
    listed: Seq<Seq<char>>,
    picked: Option<Seq<Seq<char>>>,
    answer: Option<Seq<char>>,
    text: Option<Seq<char>>,
    b: Batch,
) -> bool {
    &&& wm.windows_answer(listing)
    &&& match listing {
        None => stopped_with(b, OutcomeView::NoWindow),
        Some(all) => {
            let windows = all.filter(not_dialog());
            if windows.len() == 0 {
                stopped_with(b, OutcomeView::NoWindow)
            } else {
                &&& asked_here(wm, here)
                &&& asked_held(wm, held)
                &&& prompt.many_rows_answer(
                    many_rows_for(windows, here, follow),
                    "Sling several windows"@,
                    "which windows belong together?"@,
                    picked,
                )
                &&& match picked {
                    None => stopped_with(b, OutcomeView::Cancelled),
                    Some(p) => match crate::text::first_index(p, other_tab(TO_MANY@)) {
                        Some(k) => stopped_with(b, OutcomeView::SwitchMode { to: p[k] }),
                        None => {
                            let chosen = windows.filter(picked_window(p));
                            if chosen.len() == 0 {
                                stopped_with(b, OutcomeView::Cancelled)
                            } else {
                                asked_listed(wm, listed) && many_sent(
                                    wm,
                                    prompt,
                                    chosen,
                                    held,
                                    many_targets_for(held, listed, cfg, cached, pins),
                                    answer,
                                    text,
                                    b,
                                )
                            }
                        },
                    },
                }
            }
        },
    }
}

/// Select several windows, then send them all to one task.
///
/// Built for draining: a workspace that has accumulated dozens of windows is
/// emptied by selecting a handful at a time, and moving a window *out* of the
/// visible workspace is cheap — unlike switching into a crowded one.
pub fn run_many<W: WindowManager, P: Prompt>(
    wm: &W,
    prompt: &P,
    cfg: &Config,
    cached: &[String],
    follow: Following,
    pins: &[String],
) -> (b: Batch)
    ensures
        batch_holds(b, TO_MANY@),
        b.aborted is None ==> exists|listed: Seq<Window>, picked: Seq<Seq<char>>|
            brought_windows(b.results@) == #[trigger] picked_from_listing(listed, picked),
        exists|
            listing: Option<Seq<Window>>,
            here: Seq<char>,
            held: NameMap<Occupancy>,
            listed: Seq<Seq<char>>,
            picked: Option<Seq<Seq<char>>>,
            answer: Option<Seq<char>>,
            text: Option<Seq<char>>,
        |
            #[trigger] many_done(
                wm,
                prompt,
                *cfg,
                views(cached@),
                follow,
                views(pins@),
                listing,
                here,
                held,
                listed,
                picked,
                answer,
                text,
                b,
            ),
{
    let ghost cv = views(cached@);
    let ghost pv = views(pins@);
    let ghost nothing: NameMap<Occupancy> = vstd::pervasive::arbitrary();
    let listing = wm.all_windows();
    let ghost lv = if listing is Some {
        Some(listing->0@)
    } else {
        None
    };
    let all = match listing {
        Some(all) => all,
        None => {
            let b = Batch::stopped(Outcome::NoWindow);
            assert(many_done(wm, prompt, *cfg, cv, follow, pv, lv, Seq::empty(), nothing, Seq::empty(), None, None, None, b));
            return b;
        },
    };
    let windows = without_dialog(all.as_slice());
    if windows.len() == 0 {
        let b = Batch::stopped(Outcome::NoWindow);
        assert(many_done(wm, prompt, *cfg, cv, follow, pv, lv, Seq::empty(), nothing, Seq::empty(), None, None, None, b));
        return b;
    }
    let looked = wm.focused_workspace();
    proof {
        assert(wm.here_answer(opt_text(looked)));
    }
    let here = match looked {
        Some(h) => h,
        None => String::new(),
    };
    assert(asked_here(wm, here@));
    let answered = wm.occupancy();
    proof {
        assert(wm.occupancy_answer(answered));
    }
    let occupancy = match answered {
        Some(o) => o,
        None => NameMap::new(),
    };
    assert(asked_held(wm, occupancy));
    // Which windows, then where. The list is grouped by the workspace each
    // window is in, and a whole group can be taken at once — so the folders
    // are here, in the answer, rather than as a question of their own.
    let menu = picker::build_window_menu(
        windows.as_slice(),
        here.as_str(),
        (|w: &Window| -> (r: bool)
            ensures
                r == follows(follow, *w),
            {
                follow.has(w)
            }),
    );
    let ghost wrows = many_rows_for(windows@, here@, follow);
    proof {
        let groups = picker::window_groups(windows@, here@);
        let rows = picker::window_rows(groups, windows@);
        let shown = Seq::new(
            rows.len(),
            |k: int| picker::row_with_pin(rows[k], follows(follow, picker::window_flat(groups)[k])),
        );
        assert forall|k: int| 0 <= k < rows.len() implies #[trigger] row_views(menu.rows@)[k] == shown[k] by {
            assert(menu.rows@[k]@ == picker::row_with_pin(rows[k], menu.rows@[k].pinned));
        }
        assert(row_views(menu.rows@) =~= shown);
    }
    let mut rows = tabs(Mode::Many);
    let ghost head = tab_views(Mode::Many);
    let mut i: usize = 0;
    while i < menu.rows.len()
        invariant
            i <= menu.rows@.len(),
            row_views(rows@) == head + row_views(menu.rows@).take(i as int),
        decreases menu.rows.len() - i,
    {
        let ghost before = row_views(rows@);
        rows.push(menu.rows[i].duplicate());
        assert(row_views(rows@) =~= before.push(menu.rows@[i as int]@));
        assert(row_views(menu.rows@).take(i + 1) =~= row_views(menu.rows@).take(i as int).push(
            menu.rows@[i as int]@,
        ));
        i += 1;
    }
    assert(row_views(menu.rows@).take(menu.rows@.len() as int) =~= row_views(menu.rows@));
    assert(row_views(rows@) == wrows);
    let picked_answer = prompt.choose_many_rows(
        rows.as_slice(),
        "Sling several windows",
        "which windows belong together?",
    );
    let ghost pk = crate::dialog::opt_views(picked_answer);
    let picked = match picked_answer {
        Some(p) => p,
        None => {
            let b = Batch::stopped(Outcome::Cancelled);
            assert(many_done(wm, prompt, *cfg, cv, follow, pv, lv, here@, occupancy, Seq::empty(), pk, None, None, b));
            return b;
        },
    };
    match tab_picked(picked.as_slice(), TO_MANY) {
        Some(tab) => {
            proof {
                crate::text::lemma_first_index(views(picked@), other_tab(TO_MANY@));
            }
            let b = Batch::stopped(Outcome::SwitchMode { to: tab });
            assert(many_done(wm, prompt, *cfg, cv, follow, pv, lv, here@, occupancy, Seq::empty(), pk, None, None, b));
            return b;
        },
        None => {},
    }
    let chosen = chosen_windows(windows.as_slice(), picked.as_slice());
    assert(chosen@ == picked_from_listing(all@, views(picked@)));
    if chosen.len() == 0 {
        let b = Batch::stopped(Outcome::Cancelled);
        assert(many_done(wm, prompt, *cfg, cv, follow, pv, lv, here@, occupancy, Seq::empty(), pk, None, None, b));
        return b;
    }
    proof {
        assert forall|k: int| 0 <= k < chosen@.len() implies (#[trigger] chosen@[k]).app@ != DIALOG_APP@ by {
            windows@.lemma_filter_pred(picked_window(views(picked@)), k);
            let w = chosen@[k];
            windows@.lemma_filter_contains_rev(picked_window(views(picked@)), w);
            let j = choose|j: int| 0 <= j < windows@.len() && windows@[j] == w;
            all@.lemma_filter_pred(not_dialog(), j);
        }
    }
    let asked = wm.all_workspaces();
    proof {
        assert(wm.workspaces_answer(crate::dialog::opt_views(asked)));
    }
    let known_to_aerospace = names_or_empty(asked);
    let ghost listed = views(known_to_aerospace@);
    assert(listed == names_of(crate::dialog::opt_views(asked)));
    assert(asked_listed(wm, listed));
    let names = joined(cached, known_to_aerospace.as_slice());
    let targets = picker::build_menu(
        Some(&occupancy),
        cfg.known.as_slice(),
        names.as_slice(),
        "",
        cfg.order.prefixes.as_slice(),
        &cfg.labels,
        pins,
    );
    let heading = homeless(chosen.len());
    let mut target_rows: Vec<Row> = Vec::new();
    let mut j: usize = 0;
    while j < targets.rows.len()
        invariant
            j <= targets.rows@.len(),
            row_views(target_rows@) == row_views(targets.rows@).take(j as int),
        decreases targets.rows.len() - j,
    {
        let ghost before = row_views(target_rows@);
        target_rows.push(targets.rows[j].duplicate());
        assert(row_views(target_rows@) =~= before.push(targets.rows@[j as int]@));
        assert(row_views(targets.rows@).take(j + 1) =~= row_views(targets.rows@).take(j as int).push(
            targets.rows@[j as int]@,
        ));
        j += 1;
    }
    assert(row_views(targets.rows@).take(targets.rows@.len() as int) =~= row_views(targets.rows@));
    let all_label = picker::all_row(false);
    let ghost base = row_views(target_rows@);
    if target_rows.len() >= 1 {
        target_rows.insert(1, Row::action(ALL, all_label.as_str()));
    } else {
        target_rows.push(Row::action(ALL, all_label.as_str()));
    }
    let ghost trows = many_targets_for(occupancy, listed, *cfg, cv, pv);
    proof {
        reveal_strlit("");
        assert(picker::held_value(Some(&occupancy)) == Some(occupancy));
        assert(base.len() >= 1);
        assert(row_views(target_rows@) =~= base.insert(1, Row::action_view(ALL@, picker::all_row_text(false))));
        assert(row_views(target_rows@) == trows);
    }
    let answer = prompt.choose_rows(target_rows.as_slice(), "Sling several windows", heading.as_str());
    let ghost a = opt_text(answer);
    let choice = match answer {
        Some(c) => c,
        None => {
            let b = Batch::stopped(Outcome::Cancelled);
            assert(many_done(wm, prompt, *cfg, cv, follow, pv, lv, here@, occupancy, listed, pk, a, None, b));
            return b;
        },
    };
    proof {
        reveal_strlit("__many__");
    }
    let ghost mut text: Option<Seq<char>> = None;
    let target = match decide_many(choice.as_str(), target_rows.as_slice()) {
        Choice::Finish(Outcome::Following { whole_app: false }) => {
            // Tag the selection instead of moving it.
            let mut results: Vec<(Window, Outcome)> = Vec::new();
            let mut k: usize = 0;
            while k < chosen.len()
                invariant
                    k <= chosen@.len(),
                    forall|m: int| 0 <= m < chosen@.len() ==> (#[trigger] chosen@[m]).app@ != DIALOG_APP@,
                    forall|m: int|
                        0 <= m < results@.len() ==> {
                            let (w, o) = #[trigger] results@[m];
                            &&& w.app@ != DIALOG_APP@
                            &&& o@ == OutcomeView::Following { whole_app: false }
                        },
                    brought_windows(results@) == chosen@.take(k as int),
                decreases chosen.len() - k,
            {
                let ghost before = results@;
                results.push((chosen[k].duplicate(), Outcome::Following { whole_app: false }));
                assert(brought_windows(results@) =~= brought_windows(before).push(chosen@[k as int]));
                assert(chosen@.take(k + 1) =~= chosen@.take(k as int).push(chosen@[k as int]));
                k += 1;
            }
            assert(chosen@.take(chosen@.len() as int) =~= chosen@);
            let b = Batch { target: None, results, aborted: None };
            assert(many_done(wm, prompt, *cfg, cv, follow, pv, lv, here@, occupancy, listed, pk, a, None, b));
            return b;
        },
        Choice::Finish(outcome) => {
            let b = Batch::stopped(outcome);
            assert(many_done(wm, prompt, *cfg, cv, follow, pv, lv, here@, occupancy, listed, pk, a, None, b));
            return b;
        },
        Choice::Typed(name) => {
            // Named in the search box: the batch goes to a task that did not
            // exist a moment ago, without a second dialog.
            let ghost listed_windows = chosen@;
            let results = send_all(wm, chosen, &name, &occupancy, true);
            assert(brought_windows(results@) =~= listed_windows);
            let b = Batch { target: Some(name), results, aborted: None };
            assert(many_done(wm, prompt, *cfg, cv, follow, pv, lv, here@, occupancy, listed, pk, a, None, b));
            return b;
        },
        Choice::AskName => {
            let typed = prompt.ask_text("Sling to a new workspace", "Name the new workspace");
            proof {
                text = opt_text(typed);
            }
            let raw = match typed {
                Some(raw) => raw,
                None => {
                    let b = Batch::stopped(Outcome::Cancelled);
                    assert(many_done(wm, prompt, *cfg, cv, follow, pv, lv, here@, occupancy, listed, pk, a, text, b));
                    return b;
                },
            };
            let name = sanitise_workspace(raw.as_str());
            if name.as_str().is_empty() {
                let b = Batch::stopped(Outcome::EmptyName { raw });
                assert(many_done(wm, prompt, *cfg, cv, follow, pv, lv, here@, occupancy, listed, pk, a, text, b));
                return b;
            }
            name
        },
        Choice::Target(t) => t,
    };
    let ghost listed_windows = chosen@;
    let results = send_all(wm, chosen, &target, &occupancy, false);
    assert(brought_windows(results@) =~= listed_windows);
    let b = Batch { target: Some(target), results, aborted: None };
    assert(many_done(wm, prompt, *cfg, cv, follow, pv, lv, here@, occupancy, listed, pk, a, text, b));
    b
}

// ---------------------------------------------------------------------------
// Going somewhere
// ---------------------------------------------------------------------------

/// Whether a chosen id names a task row, one carrying no marker.
pub open spec fn names_task(rows: Seq<RowView>, c: Seq<char>) -> bool {
    exists|k: int| 0 <= k < rows.len() && rows[k].id == c && rows[k].marker is None
}

/// What an answer to "where to?" asks for.
pub open spec fn jump_choice(choice: Seq<char>, rows: Seq<RowView>, here: Seq<char>) -> ChoiceView {
    if choice != TO_JUMP@ && is_mode_text(choice) {
        ChoiceView::Finish(OutcomeView::SwitchMode { to: choice })
    } else if strip_prefix(choice, PIN@) is Some {
        ChoiceView::Finish(OutcomeView::PinToggled { workspace: strip_prefix(choice, PIN@).unwrap() })
    } else if choice == here {
        ChoiceView::Finish(OutcomeView::SameWorkspace)
    } else if !names_task(rows, choice) {
        ChoiceView::Finish(OutcomeView::Heading)
    } else {
        ChoiceView::Target(choice)
    }
}

fn is_task(rows: &[Row], choice: &str) -> (r: bool)
    ensures
        r == names_task(row_views(rows@), choice@),
{
    let mut i: usize = 0;
    while i < rows.len()
        invariant
            i <= rows@.len(),
            forall|k: int|
                0 <= k < i ==> !(row_views(rows@)[k].id == choice@ && row_views(rows@)[k].marker is None),
        decreases rows.len() - i,
    {
        assert(row_views(rows@)[i as int] == rows@[i as int]@);
        if same_text(rows[i].id.as_str(), choice) && rows[i].marker.is_none() {
            return true;
        }
        i += 1;
    }
    false
}

/// Read an answer to "where to?".
pub fn decide_jump(choice: &str, rows: &[Row], here: &str) -> (r: Choice)
    ensures
        r@ == jump_choice(choice@, row_views(rows@), here@),
{
    if !same_text(choice, TO_JUMP) && is_mode(choice) {
        return Choice::Finish(Outcome::SwitchMode { to: owned(choice) });
    }
    let c = chars_of(choice);
    match strip_prefix_exec(c.as_slice(), chars_of(PIN).as_slice()) {
        Some(ws) => return Choice::Finish(Outcome::PinToggled { workspace: string_of(ws.as_slice()) }),
        None => {},
    }
    if same_text(choice, here) {
        return Choice::Finish(Outcome::SameWorkspace);
    }
    if !is_task(rows, choice) {
        return Choice::Finish(Outcome::Heading);
    }
    Choice::Target(owned(choice))
}

/// What holds of every jump, whatever the window manager and the dialog
/// answered: nothing is slung, and nothing but going somewhere is done.
pub open spec fn jump_holds(r: Run) -> bool {
    &&& r.window is None
    &&& r.brought@.len() == 0
    &&& match r.outcome@ {
        OutcomeView::Cancelled | OutcomeView::PinToggled { .. } | OutcomeView::SameWorkspace
        | OutcomeView::Heading | OutcomeView::MoveFailed { .. } | OutcomeView::Jumped { .. } => true,
        OutcomeView::SwitchMode { to } => is_mode_text(to) && to != TO_JUMP@,
        _ => false,
    }
}

/// The rows the jump question offers, given what each workspace holds, the
/// workspace being looked at and which workspaces the window manager listed.
pub open spec fn jump_rows_for(
    held: Option<NameMap<Occupancy>>,
    here: Seq<char>,
    listed: Seq<Seq<char>>,
    cfg: Config,
    cached: Seq<Seq<char>>,
    pins: Seq<Seq<char>>,
) -> Seq<RowView> {
    let groups = picker::menu_groups(
        held,
        views(cfg.known@),
        cached + listed,
        here,
        views(cfg.order.prefixes@),
        cfg.labels,
        pins,
    );
    tab_views(Mode::Jump) + (seq![Row::action_view(NEW@, NEW@)] + picker::group_rows(
        groups,
        held,
        here,
        pins,
    ))
}

/// Jumping came to `outcome`: the rows were offered and `answer` picked, and
/// bringing a task to the front, when that was asked, came back `ok`.
pub open spec fn jumped<W: WindowManager, P: Prompt>(
    wm: &W,
    prompt: &P,
    rows: Seq<RowView>,
    here: Seq<char>,
    answer: Option<Seq<char>>,
    ok: bool,
    outcome: OutcomeView,
) -> bool {
    &&& prompt.rows_answer(rows, "Jump to a task"@, ""@, answer)
    &&& match answer {
        None => outcome == OutcomeView::Cancelled,
        Some(c) => match jump_choice(c, rows, here) {
            ChoiceView::Target(to) => wm.focus_workspace_answer(to, ok) && outcome == if ok {
                OutcomeView::Jumped { to }
            } else {
                OutcomeView::MoveFailed { to }
            },
            ChoiceView::Finish(o) => outcome == o,
            _ => outcome == OutcomeView::Heading,
        },
    }
}

/// Go to a task rather than sending a window to one.
///
/// Nothing is slung, so there is no subject and no window to speak of. What
/// follows from arriving — the windows that belong everywhere catching up, and
/// herdr focusing the matching tab — happens by itself, because those hang off
/// the workspace changing rather than off sling.
pub fn run_jump<W: WindowManager, P: Prompt>(
    wm: &W,
    prompt: &P,
    cfg: &Config,
    cached: &[String],
    pins: &[String],
) -> (r: Run)
    ensures
        jump_holds(r),
        wm.occupancy_answer(r.occupancy),
        exists|
            seen: Option<Seq<char>>,
            listing: Option<Seq<Seq<char>>>,
            answer: Option<Seq<char>>,
            ok: bool,
        |
            wm.here_answer(seen) && wm.workspaces_answer(listing) && #[trigger] jumped(
                wm,
                prompt,
                jump_rows_for(
                    r.occupancy,
                    here_of(seen),
                    names_of(listing),
                    *cfg,
                    views(cached@),
                    views(pins@),
                ),
                here_of(seen),
                answer,
                ok,
                r.outcome@,
            ),
{
    let occupancy = wm.occupancy();
    let looked = wm.focused_workspace();
    let ghost seen = opt_text(looked);
    let here = match looked {
        Some(h) => h,
        None => String::new(),
    };
    assert(here@ == here_of(seen));
    let asked = wm.all_workspaces();
    let ghost listing = crate::dialog::opt_views(asked);
    let known_to_aerospace = names_or_empty(asked);
    let names = joined(cached, known_to_aerospace.as_slice());
    let held = occupancy.as_ref();
    proof {
        assert(picker::held_value(held) == occupancy) by {
            match occupancy {
                Some(o) => {},
                None => {},
            }
        }
    }
    let menu = picker::build_menu(
        held,
        cfg.known.as_slice(),
        names.as_slice(),
        here.as_str(),
        cfg.order.prefixes.as_slice(),
        &cfg.labels,
        pins,
    );
    let mut rows = tabs(Mode::Jump);
    let ghost head = tab_views(Mode::Jump);
    let mut i: usize = 0;
    while i < menu.rows.len()
        invariant
            i <= menu.rows@.len(),
            row_views(rows@) == head + row_views(menu.rows@).take(i as int),
        decreases menu.rows.len() - i,
    {
        let ghost before = row_views(rows@);
        rows.push(menu.rows[i].duplicate());
        assert(row_views(rows@) =~= before.push(menu.rows@[i as int]@));
        assert(row_views(menu.rows@).take(i + 1) =~= row_views(menu.rows@).take(i as int).push(
            menu.rows@[i as int]@,
        ));
        i += 1;
    }
    let ghost listed = names_of(listing);
    assert(views(known_to_aerospace@) == listed);
    let ghost rv = jump_rows_for(occupancy, here@, listed, *cfg, views(cached@), views(pins@));
    assert(row_views(menu.rows@).take(menu.rows@.len() as int) =~= row_views(menu.rows@));
    assert(row_views(rows@) == rv);
    let answer = prompt.choose_rows(rows.as_slice(), "Jump to a task", "");
    let ghost a = opt_text(answer);
    let choice = match answer {
        Some(c) => c,
        None => {
            let r = Run { window: None, occupancy, outcome: Outcome::Cancelled, brought: Vec::new() };
            assert(jumped(wm, prompt, rv, here@, a, false, r.outcome@));
            return r;
        },
    };
    let mut ok = false;
    let outcome = match decide_jump(choice.as_str(), rows.as_slice(), here.as_str()) {
        Choice::Target(to) => {
            ok = wm.focus_workspace(to.as_str());
            if !ok {
                Outcome::MoveFailed { to }
            } else {
                Outcome::Jumped { to }
            }
        },
        Choice::Finish(o) => o,
        _ => Outcome::Heading,
    };
    let r = Run { window: None, occupancy, outcome, brought: Vec::new() };
    assert(jumped(wm, prompt, rv, here@, a, ok, r.outcome@));
    r
}

// ---------------------------------------------------------------------------
// The board
// ---------------------------------------------------------------------------

pub enum Session {
    Single(Run),
    Batch(Batch),
}

/// A sorted list with each run of equal names kept once (`Vec::dedup`).
pub open spec fn dedup(s: Seq<Seq<char>>) -> Seq<Seq<char>>
    decreases s.len(),
{
    if s.len() <= 1 {
        s
    } else if s.last() == s[s.len() - 2] {
        dedup(s.drop_last())
    } else {
        dedup(s.drop_last()).push(s.last())
    }
}

proof fn lemma_dedup_last(s: Seq<Seq<char>>)
    requires
        s.len() > 0,
    ensures
        dedup(s).len() > 0,
        dedup(s).last() == s.last(),
    decreases s.len(),
{
    if s.len() > 1 && s.last() == s[s.len() - 2] {
        lemma_dedup_last(s.drop_last());
    }
}

/// Whether a name is a task holding nothing: not blank, and not among what
/// the windows occupy.
pub open spec fn idle(occupied: NameMap<Occupancy>) -> spec_fn(Seq<char>) -> bool {
    |n: Seq<char>| n.len() > 0 && !occupied.has(n)
}

/// The tasks holding nothing, sorted, each once.
pub open spec fn empty_tasks(names: Seq<Seq<char>>, occupied: NameMap<Occupancy>) -> Seq<Seq<char>> {
    dedup(sorted_texts_of(names.filter(idle(occupied))))
}

pub open spec fn sorted_texts_of(s: Seq<Seq<char>>) -> Seq<Seq<char>> {
    crate::text::sorted_texts(s)
}

fn idle_names(names: &[String], occupied: &NameMap<Occupancy>) -> (r: Vec<String>)
    ensures
        views(r@) == empty_tasks(views(names@), *occupied),
{
    let ghost keep = idle(*occupied);
    let mut kept: Vec<String> = Vec::new();
    let mut i: usize = 0;
    while i < names.len()
        invariant
            i <= names@.len(),
            keep == idle(*occupied),
            views(kept@) == views(names@).take(i as int).filter(keep),
        decreases names.len() - i,
    {
        let ghost all = views(names@);
        proof {
            assert(all.take(i + 1) =~= all.take(i as int).push(all[i as int]));
            all.take(i as int).lemma_filter_push(all[i as int], keep);
        }
        if !names[i].as_str().is_empty() && !occupied.contains_key(names[i].as_str()) {
            let ghost before = views(kept@);
            kept.push(copy_text(&names[i]));
            assert(views(kept@) =~= before.push(all[i as int]));
        }
        i += 1;
    }
    assert(views(names@).take(names@.len() as int) =~= views(names@));
    let sorted = crate::text::sort_texts(&kept);
    let ghost ss = views(sorted@);
    let mut out: Vec<String> = Vec::new();
    let mut j: usize = 0;
    while j < sorted.len()
        invariant
            j <= sorted@.len(),
            ss == views(sorted@),
            views(out@) == dedup(ss.take(j as int)),
        decreases sorted.len() - j,
    {
        proof {
            assert(ss.take(j + 1).drop_last() =~= ss.take(j as int));
            assert(ss.take(j + 1).last() == ss[j as int]);
        }
        let repeat = j > 0 && same_text(sorted[j].as_str(), sorted[j - 1].as_str());
        if !repeat {
            let ghost before = views(out@);
            out.push(copy_text(&sorted[j]));
            assert(views(out@) =~= before.push(ss[j as int]));
            proof {
                if j > 0 {
                    assert(ss.take(j + 1)[j - 1] == ss[j - 1]);
                }
            }
        } else {
            assert(ss.take(j + 1)[j - 1] == ss[j - 1]);
        }
        j += 1;
    }
    assert(ss.take(ss.len() as int) =~= ss);
    out
}

/// The drags a board answer carries, as window and task, in order.
pub open spec fn drags_in(answer: Seq<Seq<char>>) -> Seq<(Seq<char>, Seq<char>)>
    decreases answer.len(),
{
    if answer.len() == 0 {
        Seq::<(Seq<char>, Seq<char>)>::empty()
    } else {
        let earlier = drags_in(answer.drop_last());
        match picker::sling_parts_of(answer.last()) {
            Some(d) => earlier.push(d),
            None => earlier,
        }
    }
}

pub fn drags_of(answer: &[String]) -> (r: Vec<(String, String)>)
    ensures
        r@.map_values(|d: (String, String)| (d.0@, d.1@)) == drags_in(views(answer@)),
{
    let mut r: Vec<(String, String)> = Vec::new();
    let mut i: usize = 0;
    while i < answer.len()
        invariant
            i <= answer@.len(),
            r@.map_values(|d: (String, String)| (d.0@, d.1@)) == drags_in(views(answer@).take(i as int)),
        decreases answer.len() - i,
    {
        let ghost all = views(answer@);
        proof {
            assert(all.take(i + 1).drop_last() =~= all.take(i as int));
            assert(all.take(i + 1).last() == answer@[i as int]@);
        }
        match picker::sling_parts(answer[i].as_str()) {
            Some(d) => {
                let ghost before = r@.map_values(|d: (String, String)| (d.0@, d.1@));
                r.push(d);
                assert(r@.map_values(|d: (String, String)| (d.0@, d.1@)) =~= before.push(
                    (r@.last().0@, r@.last().1@),
                ));
            },
            None => {},
        }
        i += 1;
    }
    assert(views(answer@).take(answer@.len() as int) =~= views(answer@));
    r
}

/// The first window with an id.
/// Whether a window has the given id.
pub open spec fn has_id(id: Seq<char>) -> spec_fn(Window) -> bool {
    |w: Window| w.id@ == id
}

fn window_with_id(windows: &Vec<Window>, id: &str) -> (r: Option<usize>)
    ensures
        match r {
            Some(k) => k < windows@.len() && windows@[k as int].id@ == id@,
            None => forall|k: int| 0 <= k < windows@.len() ==> windows@[k].id@ != id@,
        },
        r matches Some(k) ==> crate::text::first_index(windows@, has_id(id@)) == Some(k as int),
        r is None ==> crate::text::first_index(windows@, has_id(id@)) is None,
{
    proof {
        crate::text::lemma_first_index(windows@, has_id(id@));
    }
    let mut i: usize = 0;
    while i < windows.len()
        invariant
            i <= windows@.len(),
            forall|k: int| 0 <= k < i ==> windows@[k].id@ != id@,
        decreases windows.len() - i,
    {
        if same_text(windows[i].id.as_str(), id) {
            proof {
                crate::text::lemma_first_index_is(windows@, has_id(id@), i as int);
            }
            return Some(i);
        }
        i += 1;
    }
    None
}

/// What a board answer asks for.
pub enum BoardChoice {
    /// Another tab was picked: reopen in that mode.
    Leave(String),
    /// Windows were dragged onto tasks: window id and task, in order.
    Drags(Vec<(String, String)>),
    Cancel,
    /// A window was clicked: go to the one at this position of the list.
    Window(usize),
    /// The task being looked at was clicked.
    Same,
    /// Another task's tile was clicked: go there.
    Visit(String),
    /// Nothing that names a window or a task.
    Heading,
}

pub enum BoardChoiceView {
    Leave(Seq<char>),
    Drags(Seq<(Seq<char>, Seq<char>)>),
    Cancel,
    Window(int),
    Same,
    Visit(Seq<char>),
    Heading,
}

impl View for BoardChoice {
    type V = BoardChoiceView;

    open spec fn view(&self) -> BoardChoiceView {
        match self {
            BoardChoice::Leave(t) => BoardChoiceView::Leave(t@),
            BoardChoice::Drags(d) => BoardChoiceView::Drags(
                d@.map_values(|x: (String, String)| (x.0@, x.1@)),
            ),
            BoardChoice::Cancel => BoardChoiceView::Cancel,
            BoardChoice::Window(k) => BoardChoiceView::Window(*k as int),
            BoardChoice::Same => BoardChoiceView::Same,
            BoardChoice::Visit(t) => BoardChoiceView::Visit(t@),
            BoardChoice::Heading => BoardChoiceView::Heading,
        }
    }
}

/// What a board answer asks for: another tab first; then any drags; else the
/// first line, read as a window, then as a task holding windows or waiting
/// empty.
pub open spec fn board_choice(
    answer: Seq<Seq<char>>,
    windows: Seq<Window>,
    occupied: NameMap<Occupancy>,
    empty: Seq<Seq<char>>,
    here: Seq<char>,
) -> BoardChoiceView {
    match crate::text::first_index(answer, other_tab(TO_BOARD@)) {
        Some(k) => BoardChoiceView::Leave(answer[k]),
        None => if drags_in(answer).len() > 0 {
            BoardChoiceView::Drags(drags_in(answer))
        } else if answer.len() == 0 {
            BoardChoiceView::Cancel
        } else {
            match crate::text::first_index(windows, has_id(answer[0])) {
                Some(k) => BoardChoiceView::Window(k),
                None => if occupied.has(answer[0]) || empty.contains(answer[0]) {
                    if answer[0] == here {
                        BoardChoiceView::Same
                    } else {
                        BoardChoiceView::Visit(answer[0])
                    }
                } else {
                    BoardChoiceView::Heading
                },
            }
        },
    }
}

/// Read a board answer.
pub fn decide_board(
    answer: &[String],
    windows: &Vec<Window>,
    occupied: &NameMap<Occupancy>,
    empty: &[String],
    here: &str,
) -> (r: BoardChoice)
    ensures
        r@ == board_choice(views(answer@), windows@, *occupied, views(empty@), here@),
{
    proof {
        reveal_strlit("__board__");
    }
    match tab_picked(answer, TO_BOARD) {
        Some(tab) => {
            return BoardChoice::Leave(tab);
        },
        None => {},
    }
    let drags = drags_of(answer);
    if drags.len() > 0 {
        return BoardChoice::Drags(drags);
    }
    if answer.len() == 0 {
        return BoardChoice::Cancel;
    }
    let choice = &answer[0];
    assert(views(answer@)[0] == choice@);
    match window_with_id(windows, choice.as_str()) {
        Some(k) => {
            return BoardChoice::Window(k);
        },
        None => {},
    }
    if occupied.contains_key(choice.as_str()) || names_any(empty, choice.as_str()) {
        if same_text(choice.as_str(), here) {
            return BoardChoice::Same;
        }
        return BoardChoice::Visit(copy_text(choice));
    }
    BoardChoice::Heading
}

/// What holds of every board session, whatever was answered.
pub open spec fn board_holds(s: Session) -> bool {
    match s {
        Session::Single(r) => {
            &&& r.brought@.len() == 0
            &&& match r.outcome@ {
                OutcomeView::NoWindow => r.window is None && r.occupancy is None,
                OutcomeView::Focused { to } => r.window matches Some(w) && w.workspace@ == to,
                OutcomeView::SwitchMode { to } => r.window is None && is_mode_text(to) && to
                    != TO_BOARD@,
                OutcomeView::Cancelled | OutcomeView::RefocusFailed | OutcomeView::SameWorkspace
                | OutcomeView::MoveFailed { .. } | OutcomeView::Jumped { .. }
                | OutcomeView::Heading => r.window is None,
                _ => false,
            }
        },
        Session::Batch(b) => {
            &&& b.target is None
            &&& b.aborted is None
            &&& forall|k: int|
                0 <= k < b.results@.len() ==> {
                    let (w, o) = #[trigger] b.results@[k];
                    &&& w.app@ != DIALOG_APP@
                    &&& exists|t: Seq<char>| sent(w, o@, t)
                }
        },
    }
}

fn single(occupancy: NameMap<Occupancy>, outcome: Outcome) -> (s: Session)
    ensures
        s matches Session::Single(r) && r.window is None && r.brought@.len() == 0 && r.outcome
            == outcome && r.occupancy == Some(occupancy),
{
    Session::Single(Run { window: None, occupancy: Some(occupancy), outcome, brought: Vec::new() })
}

/// The windows the board's drags name, each with the task it was dragged
/// to, in order; a drag naming no listed window is dropped.
pub open spec fn dragged(drags: Seq<(Seq<char>, Seq<char>)>, windows: Seq<Window>) -> Seq<
    (Window, Seq<char>),
>
    decreases drags.len(),
{
    if drags.len() == 0 {
        Seq::<(Window, Seq<char>)>::empty()
    } else {
        let rest = dragged(drags.drop_last(), windows);
        match crate::text::first_index(windows, has_id(drags.last().0)) {
            Some(k) => rest.push((windows[k], drags.last().1)),
            None => rest,
        }
    }
}

/// The board's rows: the tabs, every window grouped by its task, and a tile
/// for each task waiting empty.
pub open spec fn board_rows_for(
    windows: Seq<Window>,
    here: Seq<char>,
    follow: Following,
    empty: Seq<Seq<char>>,
) -> Seq<RowView> {
    let groups = picker::window_groups(windows, here);
    let rows = picker::window_rows(groups, windows);
    tab_views(Mode::Board) + Seq::new(
        rows.len(),
        |k: int| picker::row_with_pin(rows[k], follows(follow, picker::window_flat(groups)[k])),
    ) + empty.map_values(|n: Seq<char>| tile_view(n))
}

/// The tile of a task waiting empty.
pub open spec fn tile_view(n: Seq<char>) -> RowView {
    RowView { marker: Some("space"@), section: Some(n), ..Row::action_view(n, n) }
}

/// A board session that ended on one outcome, touching no window.
pub open spec fn board_single(s: Session, held: NameMap<Occupancy>, o: OutcomeView) -> bool {
    s matches Session::Single(r) && r.window is None && r.brought@.len() == 0 && r.outcome@ == o
        && r.occupancy == Some(held)
}

/// What a board answer comes to, given what each workspace holds, the tasks
/// waiting empty and the workspace being looked at; a window or task brought
/// forward, when that was asked, came back `ok`.
pub open spec fn board_after<W: WindowManager>(
    wm: &W,
    windows: Seq<Window>,
    held: NameMap<Occupancy>,
    empty: Seq<Seq<char>>,
    here: Seq<char>,
    answer: Seq<Seq<char>>,
    ok: bool,
    s: Session,
) -> bool {
    match board_choice(answer, windows, held, empty, here) {
        BoardChoiceView::Leave(t) => board_single(s, held, OutcomeView::SwitchMode { to: t }),
        BoardChoiceView::Drags(d) => s matches Session::Batch(b) && b.target is None && b.aborted is None
            && {
            let moves = dragged(d, windows);
            &&& b.results@.len() == moves.len()
            &&& forall|k: int|
                0 <= k < moves.len() ==> (#[trigger] b.results@[k]).0 == moves[k].0 && exists|
                    ok: bool,
                | #[trigger] sent_as(wm, b.results@[k].0, moves[k].1, held, false, ok, b.results@[k].1@)
        },
        BoardChoiceView::Cancel => board_single(s, held, OutcomeView::Cancelled),
        BoardChoiceView::Window(k) => wm.focus_answer(windows[k].id@, ok) && if ok {
            s matches Session::Single(r) && r.window == Some(windows[k]) && r.brought@.len() == 0
                && r.occupancy == Some(held) && r.outcome@ == OutcomeView::Focused {
                to: windows[k].workspace@,
            }
        } else {
            board_single(s, held, OutcomeView::RefocusFailed)
        },
        BoardChoiceView::Same => board_single(s, held, OutcomeView::SameWorkspace),
        BoardChoiceView::Visit(n) => wm.focus_workspace_answer(n, ok) && board_single(
            s,
            held,
            if ok {
                OutcomeView::Jumped { to: n }
            } else {
                OutcomeView::MoveFailed { to: n }
            },
        ),
        BoardChoiceView::Heading => board_single(s, held, OutcomeView::Heading),
    }
}

/// What a board session comes to, given every answer: the workspace being
/// looked at, the windows listed, what each workspace holds (as counted from
/// that listing), the workspaces listed by name, the answer and whether what
/// was brought forward took.
pub open spec fn board_done<W: WindowManager, P: Prompt>(
    wm: &W,
    prompt: &P,
    cfg: Config,
    cached: Seq<Seq<char>>,
    follow: Following,
    here: Seq<char>,
    listing: Option<Seq<Window>>,
    held: NameMap<Occupancy>,
    listed: Seq<Seq<char>>,
    answer: Option<Seq<Seq<char>>>,
    ok: bool,
    s: Session,
) -> bool {
    &&& asked_here(wm, here)
    &&& wm.windows_answer(listing)
    &&& match listing {
        None => s matches Session::Single(r) && r.window is None && r.occupancy is None
            && r.brought@.len() == 0 && r.outcome@ == OutcomeView::NoWindow,
        Some(all) => {
            let windows = all.filter(not_dialog());
            let empty = empty_tasks(listed + views(cfg.known@) + cached, held);
            &&& asked_listed(wm, listed)
            &&& picker::occupancy_matches(held, picker::window_pairs(windows))
            &&& prompt.board_answer(board_rows_for(windows, here, follow, empty), "Every window"@, here, answer)
            &&& match answer {
                None => board_single(s, held, OutcomeView::Cancelled),
                Some(a) => board_after(wm, windows, held, empty, here, a, ok, s),
            }
        },
    }
}

/// Every window on the machine, grouped by the task it is in.
///
/// macOS groups Mission Control by its own Spaces, which have nothing to do
/// with these: AeroSpace hides a workspace by parking its windows off screen
/// *within* a Space, so Ctrl-↑ shows all of them at once, ungrouped and
/// unlabelled. This draws the same picture from the grouping that was meant.
///
/// Unlike every other mode this one can be answered more than once. A tidy-up
/// is several windows going to several different places, and closing the panel
/// after each would make sorting forty windows forty keypresses — so the drags
/// are collected by the panel and applied together here.
pub fn run_board<W: WindowManager, P: Prompt>(
    wm: &W,
    prompt: &P,
    cfg: &Config,
    cached: &[String],
    follow: Following,
) -> (s: Session)
    ensures
        board_holds(s),
        exists|
            here: Seq<char>,
            listing: Option<Seq<Window>>,
            held: NameMap<Occupancy>,
            listed: Seq<Seq<char>>,
            answer: Option<Seq<Seq<char>>>,
            ok: bool,
        |
            #[trigger] board_done(
                wm,
                prompt,
                *cfg,
                views(cached@),
                follow,
                here,
                listing,
                held,
                listed,
                answer,
                ok,
                s,
            ),
{
    let ghost cv = views(cached@);
    let ghost nothing: NameMap<Occupancy> = vstd::pervasive::arbitrary();
    let looked = wm.focused_workspace();
    proof {
        assert(wm.here_answer(opt_text(looked)));
    }
    let here = match looked {
        Some(h) => h,
        None => String::new(),
    };
    assert(asked_here(wm, here@));
    let listing = wm.all_windows();
    let ghost lv = if listing is Some {
        Some(listing->0@)
    } else {
        None
    };
    let all = match listing {
        Some(all) => all,
        None => {
            let s = Session::Single(
                Run { window: None, occupancy: None, outcome: Outcome::NoWindow, brought: Vec::new() },
            );
            assert(board_done(wm, prompt, *cfg, cv, follow, here@, lv, nothing, Seq::empty(), None, false, s));
            return s;
        },
    };
    let windows = without_dialog(all.as_slice());
    let occupancy = picker::occupancy_of(windows.as_slice());
    let menu = picker::build_window_menu(
        windows.as_slice(),
        here.as_str(),
        (|w: &Window| -> (r: bool)
            ensures
                r == follows(follow, *w),
            {
                follow.has(w)
            }),
    );
    proof {
        let groups = picker::window_groups(windows@, here@);
        let rows = picker::window_rows(groups, windows@);
        let shown = Seq::new(
            rows.len(),
            |k: int| picker::row_with_pin(rows[k], follows(follow, picker::window_flat(groups)[k])),
        );
        assert forall|k: int| 0 <= k < rows.len() implies #[trigger] row_views(menu.rows@)[k] == shown[k] by {
            assert(menu.rows@[k]@ == picker::row_with_pin(rows[k], menu.rows@[k].pinned));
        }
        assert(row_views(menu.rows@) =~= shown);
    }
    let mut rows = tabs(Mode::Board);
    let ghost head = tab_views(Mode::Board);
    let mut i: usize = 0;
    while i < menu.rows.len()
        invariant
            i <= menu.rows@.len(),
            row_views(rows@) == head + row_views(menu.rows@).take(i as int),
        decreases menu.rows.len() - i,
    {
        let ghost before = row_views(rows@);
        rows.push(menu.rows[i].duplicate());
        assert(row_views(rows@) =~= before.push(menu.rows@[i as int]@));
        assert(row_views(menu.rows@).take(i + 1) =~= row_views(menu.rows@).take(i as int).push(
            menu.rows@[i as int]@,
        ));
        i += 1;
    }
    assert(row_views(menu.rows@).take(menu.rows@.len() as int) =~= row_views(menu.rows@));
    // Tasks holding nothing still get a tile, so the board can tidy *into* one
    // that is waiting empty rather than only shuffle between the ones already
    // in use.
    let asked = wm.all_workspaces();
    proof {
        assert(wm.workspaces_answer(crate::dialog::opt_views(asked)));
    }
    let listed = names_or_empty(asked);
    assert(views(listed@) == names_of(crate::dialog::opt_views(asked)));
    assert(asked_listed(wm, views(listed@)));
    let names = joined(joined(listed.as_slice(), cfg.known.as_slice()).as_slice(), cached);
    let empty = idle_names(names.as_slice(), &occupancy);
    let ghost tiles = row_views(rows@);
    let mut e: usize = 0;
    while e < empty.len()
        invariant
            e <= empty@.len(),
            row_views(rows@) == tiles + views(empty@).take(e as int).map_values(|n: Seq<char>| tile_view(n)),
        decreases empty.len() - e,
    {
        let ghost before = row_views(rows@);
        let tile = Row::space(empty[e].as_str());
        assert(tile@ == tile_view(empty@[e as int]@));
        rows.push(tile);
        assert(row_views(rows@) =~= before.push(tile_view(empty@[e as int]@)));
        assert(views(empty@).take(e + 1) =~= views(empty@).take(e as int).push(empty@[e as int]@));
        assert(views(empty@).take(e + 1).map_values(|n: Seq<char>| tile_view(n)) =~= views(
            empty@,
        ).take(e as int).map_values(|n: Seq<char>| tile_view(n)).push(tile_view(empty@[e as int]@)));
        assert(row_views(rows@) =~= tiles + views(empty@).take(e + 1).map_values(|n: Seq<char>| tile_view(n)));
        e += 1;
    }
    assert(views(empty@).take(empty@.len() as int) =~= views(empty@));
    let ghost ev = views(empty@);
    let ghost listed_v = views(listed@);
    proof {
        assert(views(names@) =~= listed_v + views(cfg.known@) + cv);
        assert(row_views(rows@) == board_rows_for(windows@, here@, follow, ev));
    }
    let answered = prompt.choose_board(rows.as_slice(), "Every window", here.as_str());
    let ghost av = crate::dialog::opt_views(answered);
    let answer = match answered {
        Some(a) => a,
        None => {
            let s = single(occupancy, Outcome::Cancelled);
            assert(board_done(wm, prompt, *cfg, cv, follow, here@, lv, occupancy, listed_v, av, false, s));
            return s;
        },
    };
    let decided = decide_board(answer.as_slice(), &windows, &occupancy, empty.as_slice(), here.as_str());
    proof {
        reveal_strlit("__board__");
        crate::text::lemma_first_index(views(answer@), other_tab(TO_BOARD@));
        crate::text::lemma_first_index(windows@, has_id(views(answer@)[0]));
    }
    let s = match decided {
        BoardChoice::Leave(tab) => single(occupancy, Outcome::SwitchMode { to: tab }),
        // Windows dragged onto tasks, applied together. Each is recorded
        // exactly as a sling is, so tidying on the board feeds `restore` the
        // same statement of intent that slinging by hand does.
        BoardChoice::Drags(drags) => {
            let ghost dv = drags@.map_values(|x: (String, String)| (x.0@, x.1@));
            let mut results: Vec<(Window, Outcome)> = Vec::new();
            let ghost mut oks: Seq<bool> = Seq::empty();
            let mut d: usize = 0;
            while d < drags.len()
                invariant
                    d <= drags@.len(),
                    dv == drags@.map_values(|x: (String, String)| (x.0@, x.1@)),
                    windows@ == all@.filter(not_dialog()),
                    results@.len() == dragged(dv.take(d as int), windows@).len(),
                    oks.len() == results@.len(),
                    forall|m: int|
                        0 <= m < results@.len() ==> {
                            let (w, o) = #[trigger] results@[m];
                            &&& w.app@ != DIALOG_APP@
                            &&& exists|t: Seq<char>| sent(w, o@, t)
                        },
                    forall|m: int|
                        0 <= m < results@.len() ==> (#[trigger] results@[m]).0 == dragged(
                            dv.take(d as int),
                            windows@,
                        )[m].0 && sent_as(
                            wm,
                            results@[m].0,
                            dragged(dv.take(d as int), windows@)[m].1,
                            occupancy,
                            false,
                            oks[m],
                            results@[m].1@,
                        ),
                decreases drags.len() - d,
            {
                let ghost prev = dragged(dv.take(d as int), windows@);
                proof {
                    assert(dv.take(d + 1).drop_last() =~= dv.take(d as int));
                    assert(dv.take(d + 1).last() == dv[d as int]);
                }
                let (window_id, target) = (&drags[d].0, &drags[d].1);
                match window_with_id(&windows, window_id.as_str()) {
                    Some(k) => {
                        proof {
                            all@.lemma_filter_pred(not_dialog(), k as int);
                        }
                        let window = windows[k].duplicate();
                        let mut ok = false;
                        let outcome = if same_text(window.workspace.as_str(), target.as_str()) {
                            Outcome::SameWorkspace
                        } else if !wm.move_window(window.id.as_str(), target.as_str()) {
                            Outcome::MoveFailed { to: copy_text(target) }
                        } else {
                            ok = true;
                            Outcome::Moved {
                                to: copy_text(target),
                                created: !occupancy.contains_key(target.as_str()),
                            }
                        };
                        assert(sent(window, outcome@, target@));
                        assert(sent_as(wm, window, target@, occupancy, false, ok, outcome@));
                        let ghost before = results@;
                        let ghost before_oks = oks;
                        let ghost t = target@;
                        results.push((window, outcome));
                        proof {
                            oks = oks.push(ok);
                            let now = dragged(dv.take(d + 1), windows@);
                            assert(now == prev.push((windows@[k as int], t)));
                            assert forall|m: int| 0 <= m < results@.len() implies {
                                let (w, o) = #[trigger] results@[m];
                                &&& w.app@ != DIALOG_APP@
                                &&& exists|t: Seq<char>| sent(w, o@, t)
                            } by {
                                if m < before.len() {
                                    assert(results@[m] == before[m]);
                                } else {
                                    assert(sent(results@[m].0, results@[m].1@, t));
                                }
                            }
                            assert forall|m: int| 0 <= m < results@.len() implies (
                            #[trigger] results@[m]).0 == now[m].0 && sent_as(
                                wm,
                                results@[m].0,
                                now[m].1,
                                occupancy,
                                false,
                                oks[m],
                                results@[m].1@,
                            ) by {
                                if m < before.len() {
                                    assert(results@[m] == before[m]);
                                    assert(oks[m] == before_oks[m]);
                                    assert(now[m] == prev[m]);
                                }
                            }
                        }
                    },
                    None => {
                        proof {
                            assert(dragged(dv.take(d + 1), windows@) == prev);
                        }
                    },
                }
                d += 1;
            }
            proof {
                assert(dv.take(drags@.len() as int) =~= dv);
                let moves = dragged(dv, windows@);
                assert forall|m: int| 0 <= m < moves.len() implies (#[trigger] results@[m]).0 == moves[m].0
                    && exists|ok: bool| #[trigger] sent_as(wm, results@[m].0, moves[m].1, occupancy, false, ok, results@[m].1@) by {
                    assert(sent_as(wm, results@[m].0, moves[m].1, occupancy, false, oks[m], results@[m].1@));
                }
            }
            // No `follow_to`: a drag moves a window without moving *you*, so
            // there is no arrival for the windows that travel everywhere to
            // catch up to.
            Session::Batch(Batch { target: None, results, aborted: None })
        },
        BoardChoice::Cancel => single(occupancy, Outcome::Cancelled),
        // A window: go to it. Focusing one that is off screen brings its
        // whole task forward, which is the point — you picked the window, not
        // the task.
        BoardChoice::Window(k) => {
            let window = windows[k].duplicate();
            if !wm.focus(window.id.as_str()) {
                let s = single(occupancy, Outcome::RefocusFailed);
                assert(board_done(wm, prompt, *cfg, cv, follow, here@, lv, occupancy, listed_v, av, false, s));
                return s;
            }
            let to = copy_text(&window.workspace);
            let s = Session::Single(
                Run {
                    window: Some(window),
                    occupancy: Some(occupancy),
                    outcome: Outcome::Focused { to },
                    brought: Vec::new(),
                },
            );
            assert(board_done(wm, prompt, *cfg, cv, follow, here@, lv, occupancy, listed_v, av, true, s));
            return s;
        },
        BoardChoice::Same => single(occupancy, Outcome::SameWorkspace),
        // A tile heading: go to the task itself, whether or not it holds
        // anything.
        BoardChoice::Visit(name) => {
            if !wm.focus_workspace(name.as_str()) {
                let s = single(occupancy, Outcome::MoveFailed { to: name });
                assert(board_done(wm, prompt, *cfg, cv, follow, here@, lv, occupancy, listed_v, av, false, s));
                return s;
            }
            let s = single(occupancy, Outcome::Jumped { to: name });
            assert(board_done(wm, prompt, *cfg, cv, follow, here@, lv, occupancy, listed_v, av, true, s));
            return s;
        },
        BoardChoice::Heading => single(occupancy, Outcome::Heading),
    };
    assert(board_done(wm, prompt, *cfg, cv, follow, here@, lv, occupancy, listed_v, av, false, s));
    s
}

// ---------------------------------------------------------------------------
// A whole keypress
// ---------------------------------------------------------------------------

/// A session never ends on a picked tab: picking one reopens the dialog in
/// that mode instead.
pub open spec fn settled(s: Session) -> bool {
    match s {
        Session::Single(r) => !(r.outcome@ is SwitchMode),
        Session::Batch(b) => !(b.aborted matches Some(o) && o@ is SwitchMode),
    }
}

/// The tab a session was left by, if it was.
pub open spec fn left_tab(s: Session) -> Option<Seq<char>> {
    match s {
        Session::Single(r) => match r.outcome@ {
            OutcomeView::SwitchMode { to } => Some(to),
            _ => None,
        },
        Session::Batch(b) => match b.aborted {
            Some(o) => match o@ {
                OutcomeView::SwitchMode { to } => Some(to),
                _ => None,
            },
            None => None,
        },
    }
}

/// What `run` promises of one run, given its inputs.
pub open spec fn one_ran<W: WindowManager, P: Prompt>(
    wm: &W,
    prompt: &P,
    cfg: Config,
    cached: Seq<Seq<char>>,
    follow: Following,
    pins: Seq<Seq<char>>,
    r: Run,
) -> bool {
    &&& one_run_holds(r, follow)
    &&& wm.focused_answer(r.window)
    &&& r.window is Some && r.window->0.app@ != DIALOG_APP@ ==> wm.occupancy_answer(r.occupancy)
    &&& r.window is Some && r.window->0.app@ != DIALOG_APP@ ==> exists|
        listing: Option<Seq<Seq<char>>>,
        answer: Option<Seq<char>>,
        text: Option<Seq<char>>,
        moved: bool,
    |
        wm.workspaces_answer(listing) && #[trigger] one_sling(
            wm,
            prompt,
            r.window->0,
            r.occupancy,
            one_rows_for(r.window->0, r.occupancy, names_of(listing), cfg, cached, follow, pins),
            follow,
            answer,
            text,
            moved,
            r.outcome@,
        )
}

/// What `run_jump` promises of one run, given its inputs.
pub open spec fn jump_ran<W: WindowManager, P: Prompt>(
    wm: &W,
    prompt: &P,
    cfg: Config,
    cached: Seq<Seq<char>>,
    pins: Seq<Seq<char>>,
    r: Run,
) -> bool {
    &&& jump_holds(r)
    &&& wm.occupancy_answer(r.occupancy)
    &&& exists|
        seen: Option<Seq<char>>,
        listing: Option<Seq<Seq<char>>>,
        answer: Option<Seq<char>>,
        ok: bool,
    |
        wm.here_answer(seen) && wm.workspaces_answer(listing) && #[trigger] jumped(
            wm,
            prompt,
            jump_rows_for(r.occupancy, here_of(seen), names_of(listing), cfg, cached, pins),
            here_of(seen),
            answer,
            ok,
            r.outcome@,
        )
}

/// What `run_many` promises of one batch, given its inputs.
pub open spec fn many_ran<W: WindowManager, P: Prompt>(
    wm: &W,
    prompt: &P,
    cfg: Config,
    cached: Seq<Seq<char>>,
    follow: Following,
    pins: Seq<Seq<char>>,
    b: Batch,
) -> bool {
    &&& batch_holds(b, TO_MANY@)
    &&& b.aborted is None ==> exists|listed: Seq<Window>, picked: Seq<Seq<char>>|
        brought_windows(b.results@) == #[trigger] picked_from_listing(listed, picked)
    &&& exists|
        listing: Option<Seq<Window>>,
        here: Seq<char>,
        held: NameMap<Occupancy>,
        listed: Seq<Seq<char>>,
        picked: Option<Seq<Seq<char>>>,
        answer: Option<Seq<char>>,
        text: Option<Seq<char>>,
    |
        #[trigger] many_done(
            wm,
            prompt,
            cfg,
            cached,
            follow,
            pins,
            listing,
            here,
            held,
            listed,
            picked,
            answer,
            text,
            b,
        )
}

/// What `run_board` promises of one board session, given its inputs.
pub open spec fn board_ran<W: WindowManager, P: Prompt>(
    wm: &W,
    prompt: &P,
    cfg: Config,
    cached: Seq<Seq<char>>,
    follow: Following,
    s: Session,
) -> bool {
    &&& board_holds(s)
    &&& exists|
        here: Seq<char>,
        listing: Option<Seq<Window>>,
        held: NameMap<Occupancy>,
        listed: Seq<Seq<char>>,
        answer: Option<Seq<Seq<char>>>,
        ok: bool,
    |
        #[trigger] board_done(wm, prompt, cfg, cached, follow, here, listing, held, listed, answer, ok, s)
}

/// What the dialog opened in a given mode came to.
#[verifier::opaque]
pub open spec fn ran<W: WindowManager, P: Prompt>(
    m: Mode,
    wm: &W,
    prompt: &P,
    cfg: Config,
    cached: Seq<Seq<char>>,
    follow: Following,
    pins: Seq<Seq<char>>,
    s: Session,
) -> bool {
    match m {
        Mode::One => s matches Session::Single(r) && one_ran(wm, prompt, cfg, cached, follow, pins, r),
        Mode::Jump => s matches Session::Single(r) && jump_ran(wm, prompt, cfg, cached, pins, r),
        Mode::Many => s matches Session::Batch(b) && many_ran(wm, prompt, cfg, cached, follow, pins, b),
        Mode::Board => board_ran(wm, prompt, cfg, cached, follow, s),
    }
}

/// The mode the dialog opens in after a run of tab switches.
pub open spec fn reopened_in(start: Mode, trail: Seq<(Mode, Session)>) -> Mode {
    if trail.len() == 0 {
        start
    } else {
        mode_named(left_tab(trail.last().1)->0)
    }
}

/// A run of dialogs, each left by a tab, the first opened in `start` and
/// each later one in the mode its predecessor was left for.
pub open spec fn switches<W: WindowManager, P: Prompt>(
    start: Mode,
    wm: &W,
    prompt: &P,
    cfg: Config,
    cached: Seq<Seq<char>>,
    follow: Following,
    pins: Seq<Seq<char>>,
    trail: Seq<(Mode, Session)>,
) -> bool {
    forall|i: int|
        0 <= i < trail.len() ==> {
            &&& (#[trigger] trail[i]).0 == reopened_in(start, trail.take(i))
            &&& left_tab(trail[i].1) is Some
            &&& ran(trail[i].0, wm, prompt, cfg, cached, follow, pins, trail[i].1)
        }
}

/// What a keypress comes to: dialogs left by tabs, opened first in `start`,
/// then one that settled, in the mode the last tab asked for; or, after
/// `REOPENS` tabs in a row, nothing done.
pub open spec fn session_ran<W: WindowManager, P: Prompt>(
    start: Mode,
    wm: &W,
    prompt: &P,
    cfg: Config,
    cached: Seq<Seq<char>>,
    follow: Following,
    pins: Seq<Seq<char>>,
    s: Session,
) -> bool {
    exists|trail: Seq<(Mode, Session)>|
        #[trigger] switches(start, wm, prompt, cfg, cached, follow, pins, trail) && if trail.len()
            < REOPENS {
            ran(reopened_in(start, trail), wm, prompt, cfg, cached, follow, pins, s)
        } else {
            &&& trail.len() == REOPENS
            &&& s matches Session::Single(r)
            &&& r.window is None
            &&& r.occupancy is None
            &&& r.brought@.len() == 0
            &&& r.outcome@ == OutcomeView::Cancelled
        }
}

/// The tab a board session was left by, if it was.
fn left_by(s: &Session) -> (r: Option<String>)
    ensures
        r is None <==> settled(*s),
        r matches Some(t) ==> left_tab(*s) == Some(t@),
        r is None ==> left_tab(*s) is None,
{
    match s {
        Session::Single(run) => match &run.outcome {
            Outcome::SwitchMode { to } => Some(copy_text(to)),
            _ => None,
        },
        Session::Batch(batch) => match &batch.aborted {
            Some(Outcome::SwitchMode { to }) => Some(copy_text(to)),
            _ => None,
        },
    }
}

/// The dialog opened once, in the given mode.
fn open_in<W: WindowManager, P: Prompt>(
    mode: Mode,
    wm: &W,
    prompt: &P,
    cfg: &Config,
    cached: &[String],
    follow: Following,
    pins: &[String],
) -> (s: Session)
    ensures
        ran(mode, wm, prompt, *cfg, views(cached@), follow, views(pins@), s),
{
    reveal(ran);
    match mode {
        Mode::One => Session::Single(run(wm, prompt, cfg, cached, follow, pins)),
        Mode::Jump => Session::Single(run_jump(wm, prompt, cfg, cached, pins)),
        Mode::Many => Session::Batch(run_many(wm, prompt, cfg, cached, follow, pins)),
        Mode::Board => run_board(wm, prompt, cfg, cached, follow),
    }
}

/// One keypress, any mode. The dialog carries a row that switches between
/// them, so this reopens rather than returning when that row is picked.
pub fn run_session<W: WindowManager, P: Prompt>(
    wm: &W,
    prompt: &P,
    cfg: &Config,
    cached: &[String],
    follow: Following,
    pins: &[String],
) -> (s: Session)
    ensures
        settled(s),
        session_ran(Mode::One, wm, prompt, *cfg, views(cached@), follow, views(pins@), s),
{
    run_session_from(Mode::One, wm, prompt, cfg, cached, follow, pins)
}

/// How many times a session reopens before giving up. Toggling is the
/// user's to do as often as they like; the bound is only here so a prompt
/// that always answers "switch" cannot spin forever.
pub const REOPENS: usize = 16;

/// The same, opened on a given tab — so a key can go straight to jumping.
pub fn run_session_from<W: WindowManager, P: Prompt>(
    start: Mode,
    wm: &W,
    prompt: &P,
    cfg: &Config,
    cached: &[String],
    follow: Following,
    pins: &[String],
) -> (s: Session)
    ensures
        settled(s),
        session_ran(start, wm, prompt, *cfg, views(cached@), follow, views(pins@), s),
{
    let ghost cv = views(cached@);
    let ghost pv = views(pins@);
    let ghost mut trail: Seq<(Mode, Session)> = Seq::empty();
    let mut mode = start;
    let mut turns: usize = 0;
    while turns < REOPENS
        invariant
            turns <= REOPENS,
            trail.len() == turns,
            mode == reopened_in(start, trail),
            cv == views(cached@),
            pv == views(pins@),
            switches(start, wm, prompt, *cfg, cv, follow, pv, trail),
        decreases REOPENS - turns,
    {
        let ghost before = trail;
        let left = open_in(mode, wm, prompt, cfg, cached, follow, pins);
        match left_by(&left) {
            Some(to) => {
                mode = switched(to.as_str());
            },
            None => {
                assert(switches(start, wm, prompt, *cfg, cv, follow, pv, trail));
                return left;
            },
        }
        proof {
            trail = before.push((reopened_in(start, before), left));
            assert(trail.take(before.len() as int) =~= before);
            assert forall|i: int| 0 <= i < trail.len() implies {
                &&& (#[trigger] trail[i]).0 == reopened_in(start, trail.take(i))
                &&& left_tab(trail[i].1) is Some
                &&& ran(trail[i].0, wm, prompt, *cfg, cv, follow, pv, trail[i].1)
            } by {
                if i < before.len() {
                    assert(trail.take(i) =~= before.take(i));
                    assert(trail[i] == before[i]);
                }
            }
        }
        turns += 1;
    }
    let s = Session::Single(
        Run { window: None, occupancy: None, outcome: Outcome::Cancelled, brought: Vec::new() },
    );
    assert(switches(start, wm, prompt, *cfg, cv, follow, pv, trail));
    s
}

// ---------------------------------------------------------------------------
// Putting windows back
// ---------------------------------------------------------------------------

/// Whether a deliberate placement is for this app and title.
pub open spec fn placed_as(app: Seq<char>, title: Seq<char>) -> spec_fn(
    crate::store::PlacementView,
) -> bool {
    |p: crate::store::PlacementView| p.0 == (app, title)
}

/// Whether a snapshot placement is for this window id.
pub open spec fn snapshot_of(id: Seq<char>) -> spec_fn((Seq<char>, Seq<char>)) -> bool {
    |r: (Seq<char>, Seq<char>)| r.0 == id
}

/// Where a live window belongs: where it was last deliberately slung, going
/// by its app and title; else where the snapshot had it.
pub open spec fn belongs(
    placed: Seq<crate::store::PlacementView>,
    snapshot: Seq<(Seq<char>, Seq<char>)>,
    w: Window,
) -> Option<Seq<char>> {
    match crate::text::first_index(placed, placed_as(w.app@, w.title@)) {
        Some(k) => Some(placed[k].1),
        None => match crate::text::first_index(snapshot, snapshot_of(w.id@)) {
            Some(k) => Some(snapshot[k].1),
            None => None,
        },
    }
}

/// What putting windows back does with one live window: nothing for a
/// follower — it is wherever you are on purpose — nor for a window already
/// where it belongs; otherwise a move to where it belongs.
pub open spec fn restore_step(
    follow: Following,
    placed: Seq<crate::store::PlacementView>,
    snapshot: Seq<(Seq<char>, Seq<char>)>,
    w: Window,
) -> Option<(Seq<char>, Seq<char>)> {
    if follows(follow, w) {
        None
    } else {
        match belongs(placed, snapshot, w) {
            Some(to) => if to != w.workspace@ {
                Some((w.id@, to))
            } else {
                None
            },
            None => None,
        }
    }
}

/// The moves that put the live windows back, in the order listed.
pub open spec fn restore_moves(
    follow: Following,
    placed: Seq<crate::store::PlacementView>,
    snapshot: Seq<(Seq<char>, Seq<char>)>,
    live: Seq<Window>,
) -> Seq<(Seq<char>, Seq<char>)>
    decreases live.len(),
{
    if live.len() == 0 {
        Seq::<(Seq<char>, Seq<char>)>::empty()
    } else {
        let earlier = restore_moves(follow, placed, snapshot, live.drop_last());
        match restore_step(follow, placed, snapshot, live.last()) {
            Some(m) => earlier.push(m),
            None => earlier,
        }
    }
}

/// The log is asked first: for a window the log has placed, the snapshot
/// makes no difference to where it goes.
pub proof fn lemma_log_before_snapshot(
    follow: Following,
    placed: Seq<crate::store::PlacementView>,
    snapshot: Seq<(Seq<char>, Seq<char>)>,
    other: Seq<(Seq<char>, Seq<char>)>,
    w: Window,
)
    requires
        crate::text::first_index(placed, placed_as(w.app@, w.title@)) is Some,
    ensures
        restore_step(follow, placed, snapshot, w) == restore_step(follow, placed, other, w),
{
}

/// Windows that follow you are skipped: putting windows back moves exactly
/// what it would with the followers left out of the live list.
pub proof fn lemma_restore_skips_followers(
    follow: Following,
    placed: Seq<crate::store::PlacementView>,
    snapshot: Seq<(Seq<char>, Seq<char>)>,
    live: Seq<Window>,
)
    ensures
        restore_moves(follow, placed, snapshot, live) == restore_moves(
            follow,
            placed,
            snapshot,
            live.filter(|w: Window| !follows(follow, w)),
        ),
    decreases live.len(),
{
    let keep = |w: Window| !follows(follow, w);
    if live.len() == 0 {
        assert(live.filter(keep) =~= live);
    } else {
        let front = live.drop_last();
        lemma_restore_skips_followers(follow, placed, snapshot, front);
        assert(live =~= front.push(live.last()));
        front.lemma_filter_push(live.last(), keep);
        if keep(live.last()) {
            assert(live.filter(keep).drop_last() =~= front.filter(keep));
        }
    }
}

/// How many live windows, followers aside, are already where they belong.
pub open spec fn in_place_count(
    follow: Following,
    placed: Seq<crate::store::PlacementView>,
    snapshot: Seq<(Seq<char>, Seq<char>)>,
    live: Seq<Window>,
) -> nat
    decreases live.len(),
{
    if live.len() == 0 {
        0
    } else {
        let w = live.last();
        in_place_count(follow, placed, snapshot, live.drop_last()) + if !follows(follow, w)
            && belongs(placed, snapshot, w) == Some(w.workspace@) {
            1nat
        } else {
            0nat
        }
    }
}

/// Where a live window belongs, by the log's placements first, then the
/// snapshot.
fn belongs_exec(placed: &[((String, String), String)], snapshot: &[(&str, &str)], w: &Window) -> (r:
    Option<String>)
    ensures
        opt_text(r) == belongs(
            crate::store::placement_views(placed@),
            crate::store::pair_strs(snapshot@),
            *w,
        ),
{
    let ghost pv = crate::store::placement_views(placed@);
    let ghost sv = crate::store::pair_strs(snapshot@);
    match placement_for(placed, w) {
        Some(k) => {
            proof {
                crate::text::lemma_first_index(pv, placed_as(w.app@, w.title@));
            }
            Some(copy_text(&placed[k].1))
        },
        None => match snapshot_for(snapshot, w.id.as_str()) {
            Some(k) => {
                proof {
                    crate::text::lemma_first_index(sv, snapshot_of(w.id@));
                }
                Some(owned(snapshot[k].1))
            },
            None => None,
        },
    }
}

/// How many live windows putting windows back leaves alone because they are
/// already where they belong. Followers are not counted: they are wherever
/// you are on purpose.
pub fn in_place(
    placed: &[((String, String), String)],
    snapshot: &[(&str, &str)],
    live: &[Window],
    follow: Following,
) -> (r: usize)
    ensures
        r == in_place_count(
            follow,
            crate::store::placement_views(placed@),
            crate::store::pair_strs(snapshot@),
            live@,
        ),
{
    let ghost pv = crate::store::placement_views(placed@);
    let ghost sv = crate::store::pair_strs(snapshot@);
    let mut n: usize = 0;
    let mut i: usize = 0;
    while i < live.len()
        invariant
            i <= live@.len(),
            n <= i,
            pv == crate::store::placement_views(placed@),
            sv == crate::store::pair_strs(snapshot@),
            n == in_place_count(follow, pv, sv, live@.take(i as int)),
        decreases live.len() - i,
    {
        proof {
            assert(live@.take(i + 1).drop_last() =~= live@.take(i as int));
            assert(live@.take(i + 1).last() == live@[i as int]);
        }
        let w = &live[i];
        if !follow.has(w) {
            match belongs_exec(placed, snapshot, w) {
                Some(to) => {
                    if same_text(to.as_str(), w.workspace.as_str()) {
                        n += 1;
                    }
                },
                None => {},
            }
        }
        i += 1;
    }
    assert(live@.take(live@.len() as int) =~= live@);
    n
}

fn placement_for(placed: &[((String, String), String)], w: &Window) -> (r: Option<usize>)
    ensures
        match r {
            Some(k) => Some(k as int) == crate::text::first_index(
                crate::store::placement_views(placed@),
                placed_as(w.app@, w.title@),
            ),
            None => crate::text::first_index(
                crate::store::placement_views(placed@),
                placed_as(w.app@, w.title@),
            ) is None,
        },
{
    let ghost all = crate::store::placement_views(placed@);
    let ghost p = placed_as(w.app@, w.title@);
    let mut i: usize = 0;
    while i < placed.len()
        invariant
            i <= placed@.len(),
            all == crate::store::placement_views(placed@),
            p == placed_as(w.app@, w.title@),
            forall|j: int| 0 <= j < i ==> !p(#[trigger] all[j]),
        decreases placed.len() - i,
    {
        assert(all[i as int] == ((placed@[i as int].0.0@, placed@[i as int].0.1@), placed@[i as int].1@));
        if same_text(placed[i].0.0.as_str(), w.app.as_str()) && same_text(
            placed[i].0.1.as_str(),
            w.title.as_str(),
        ) {
            proof {
                crate::text::lemma_first_index_is(all, p, i as int);
            }
            return Some(i);
        }
        i += 1;
    }
    proof {
        crate::text::lemma_first_index(all, p);
    }
    None
}

fn snapshot_for(snapshot: &[(&str, &str)], id: &str) -> (r: Option<usize>)
    ensures
        match r {
            Some(k) => Some(k as int) == crate::text::first_index(
                crate::store::pair_strs(snapshot@),
                snapshot_of(id@),
            ),
            None => crate::text::first_index(crate::store::pair_strs(snapshot@), snapshot_of(id@))
                is None,
        },
{
    let ghost all = crate::store::pair_strs(snapshot@);
    let ghost p = snapshot_of(id@);
    let mut i: usize = 0;
    while i < snapshot.len()
        invariant
            i <= snapshot@.len(),
            all == crate::store::pair_strs(snapshot@),
            p == snapshot_of(id@),
            forall|j: int| 0 <= j < i ==> !p(#[trigger] all[j]),
        decreases snapshot.len() - i,
    {
        assert(all[i as int] == (snapshot@[i as int].0@, snapshot@[i as int].1@));
        if same_text(snapshot[i].0, id) {
            proof {
                crate::text::lemma_first_index_is(all, p, i as int);
            }
            return Some(i);
        }
        i += 1;
    }
    proof {
        crate::text::lemma_first_index(all, p);
    }
    None
}

/// Put windows back after a restart, from two sources: where each was last
/// deliberately slung, which records intent and so is asked first, and the
/// snapshot, which covers everything never placed by hand. Windows that
/// follow you are skipped: they are wherever you are on purpose.
pub fn restore_plan(
    placed: &[((String, String), String)],
    snapshot: &[(&str, &str)],
    live: &[Window],
    follow: Following,
) -> (r: Vec<(String, String)>)
    ensures
        r@.map_values(|m: (String, String)| (m.0@, m.1@)) == restore_moves(
            follow,
            crate::store::placement_views(placed@),
            crate::store::pair_strs(snapshot@),
            live@,
        ),
{
    let ghost pv = crate::store::placement_views(placed@);
    let ghost sv = crate::store::pair_strs(snapshot@);
    let mut r: Vec<(String, String)> = Vec::new();
    let mut i: usize = 0;
    while i < live.len()
        invariant
            i <= live@.len(),
            pv == crate::store::placement_views(placed@),
            sv == crate::store::pair_strs(snapshot@),
            r@.map_values(|m: (String, String)| (m.0@, m.1@)) == restore_moves(
                follow,
                pv,
                sv,
                live@.take(i as int),
            ),
        decreases live.len() - i,
    {
        proof {
            assert(live@.take(i + 1).drop_last() =~= live@.take(i as int));
            assert(live@.take(i + 1).last() == live@[i as int]);
        }
        let w = &live[i];
        if !follow.has(w) {
            let target: Option<String> = match placement_for(placed, w) {
                Some(k) => {
                    proof {
                        crate::text::lemma_first_index(pv, placed_as(w.app@, w.title@));
                    }
                    Some(copy_text(&placed[k].1))
                },
                None => match snapshot_for(snapshot, w.id.as_str()) {
                    Some(k) => {
                        proof {
                            crate::text::lemma_first_index(sv, snapshot_of(w.id@));
                        }
                        Some(owned(snapshot[k].1))
                    },
                    None => None,
                },
            };
            match target {
                Some(to) => {
                    if !same_text(to.as_str(), w.workspace.as_str()) {
                        let ghost before = r@.map_values(|m: (String, String)| (m.0@, m.1@));
                        let ghost tv = to@;
                        r.push((copy_text(&w.id), to));
                        assert(r@.map_values(|m: (String, String)| (m.0@, m.1@)) =~= before.push(
                            (w.id@, tv),
                        ));
                    }
                },
                None => {},
            }
        }
        i += 1;
    }
    assert(live@.take(live@.len() as int) =~= live@);
    r
}

} // verus!
