//! Herdr tabs as tasks.
//!
//! The model says a task is usually a herdr tab, so the tabs are read straight
//! from herdr rather than kept in step by hand. Renaming or adding a tab makes
//! it slingable immediately, with no config to edit.
//!
//! Labels use "/" where AeroSpace workspaces cannot, so `t/forms` arrives here
//! and becomes `t-forms` — the convention already in use. Asking herdr, and
//! reading its JSON reply into tabs, is the program's business; what the tabs
//! mean is decided here. A reply that cannot be read holds no tabs.
use vstd::prelude::*;

use crate::picker::{sanitise_workspace, sanitised};
use crate::text::{all_digits, copy_text, is_digit, trim, trim_chars, views, same_text};

verus! {

/// How long herdr gets to answer, in seconds.
pub const TIMEOUT_SECS: u64 = 2;

/// A tab as herdr lists it.
#[derive(Debug, Clone, PartialEq, Eq)]
pub struct HerdrTab {
    pub label: String,
    pub focused: bool,
    pub tab_id: String,
}

/// A tab, as sling cares about it: the task it names and whether it is showing.
#[derive(Debug, Clone, PartialEq, Eq)]
pub struct TabRef {
    pub task: String,
    pub id: String,
    pub focused: bool,
}

/// A label nobody chose: blank, or herdr's default of a bare number.
pub open spec fn unnamed(label: Seq<char>) -> bool {
    trim(label).len() == 0 || all_digits(trim(label))
}

/// The task names the tabs stand for, in order, each once.
pub open spec fn tab_tasks(tabs: Seq<HerdrTab>) -> Seq<Seq<char>>
    decreases tabs.len(),
{
    if tabs.len() == 0 {
        Seq::<Seq<char>>::empty()
    } else {
        let earlier = tab_tasks(tabs.drop_last());
        let label = tabs.last().label@;
        let name = sanitised(label);
        if unnamed(label) || name.len() == 0 || earlier.contains(name) {
            earlier
        } else {
            earlier.push(name)
        }
    }
}

fn digits_only(s: &[char]) -> (r: bool)
    ensures
        r == all_digits(s@),
{
    let mut i: usize = 0;
    while i < s.len()
        invariant
            i <= s.len(),
            forall|k: int| 0 <= k < i ==> is_digit(#[trigger] s@[k]),
        decreases s.len() - i,
    {
        if !('0' <= s[i] && s[i] <= '9') {
            return false;
        }
        i += 1;
    }
    true
}

fn holds(v: &Vec<String>, x: &String) -> (r: bool)
    ensures
        r == views(v@).contains(x@),
{
    let mut i: usize = 0;
    while i < v.len()
        invariant
            i <= v@.len(),
            forall|k: int| 0 <= k < i ==> views(v@)[k] != x@,
        decreases v.len() - i,
    {
        if same_text(v[i].as_str(), x.as_str()) {
            assert(views(v@)[i as int] == x@);
            return true;
        }
        i += 1;
    }
    false
}

/// Task names from the tabs of a `herdr tab list` reply.
///
/// A purely numeric label is herdr's default for a tab nobody has named, so it
/// describes no task and is left out.
pub fn parse_tabs(tabs: &[HerdrTab]) -> (r: Vec<String>)
    ensures
        views(r@) == tab_tasks(tabs@),
{
    let mut out: Vec<String> = Vec::new();
    let mut i: usize = 0;
    while i < tabs.len()
        invariant
            i <= tabs@.len(),
            views(out@) == tab_tasks(tabs@.take(i as int)),
        decreases tabs.len() - i,
    {
        proof {
            assert(tabs@.take(i + 1).drop_last() =~= tabs@.take(i as int));
            assert(tabs@.take(i + 1).last() == tabs@[i as int]);
        }
        let label = &tabs[i].label;
        let trimmed = trim_chars(crate::text::chars_of(label.as_str()).as_slice());
        if !(trimmed.len() == 0 || digits_only(trimmed.as_slice())) {
            let name = sanitise_workspace(label.as_str());
            if !name.as_str().is_empty() && !holds(&out, &name) {
                let ghost before = out@;
                out.push(name);
                assert(views(out@) =~= views(before).push(sanitised(label@)));
            }
        }
        i += 1;
    }
    assert(tabs@.take(tabs@.len() as int) =~= tabs@);
    out
}

/// The task the focused tab names: the first focused tab's label made into
/// a workspace name, unless that comes out blank or a bare number.
pub open spec fn focused_task(tabs: Seq<HerdrTab>) -> Option<Seq<char>> {
    match crate::text::first_index(tabs, |t: HerdrTab| t.focused) {
        Some(k) => {
            let name = sanitised(tabs[k].label@);
            if name.len() == 0 || all_digits(name) {
                None
            } else {
                Some(name)
            }
        },
        None => None,
    }
}

/// The task name of the focused tab, if any.
pub fn parse_focused(tabs: &[HerdrTab]) -> (r: Option<String>)
    ensures
        crate::picker::opt_text(r) == focused_task(tabs@),
{
    let ghost p = |t: HerdrTab| t.focused;
    let mut i: usize = 0;
    while i < tabs.len()
        invariant
            i <= tabs@.len(),
            p == (|t: HerdrTab| t.focused),
            forall|j: int| 0 <= j < i ==> !p(#[trigger] tabs@[j]),
        decreases tabs.len() - i,
    {
        if tabs[i].focused {
            proof {
                crate::text::lemma_first_index_is(tabs@, p, i as int);
            }
            let name = sanitise_workspace(tabs[i].label.as_str());
            let chars = crate::text::chars_of(name.as_str());
            if chars.len() == 0 || digits_only(chars.as_slice()) {
                return None;
            }
            return Some(name);
        }
        i += 1;
    }
    proof {
        crate::text::lemma_first_index(tabs@, p);
    }
    None
}

/// The tab naming a task: the first with an id whose label makes that name.
pub open spec fn tab_naming(tabs: Seq<HerdrTab>, task: Seq<char>) -> Option<int> {
    crate::text::first_index(
        tabs,
        |t: HerdrTab| t.tab_id@.len() > 0 && sanitised(t.label@) == task,
    )
}

/// The tab naming a given task, if there is one.
///
/// Not every workspace has a tab — `house`, `mail` and the infra screen are
/// tasks with no agent behind them — so a miss is ordinary and means do
/// nothing.
pub fn tab_for(tabs: &[HerdrTab], task: &str) -> (r: Option<TabRef>)
    ensures
        match tab_naming(tabs@, task@) {
            Some(k) => r matches Some(t) && t.task@ == task@ && t.id@ == tabs@[k].tab_id@
                && t.focused == tabs@[k].focused,
            None => r is None,
        },
{
    let ghost p = |t: HerdrTab| t.tab_id@.len() > 0 && sanitised(t.label@) == task@;
    let mut i: usize = 0;
    while i < tabs.len()
        invariant
            i <= tabs@.len(),
            p == (|t: HerdrTab| t.tab_id@.len() > 0 && sanitised(t.label@) == task@),
            forall|j: int| 0 <= j < i ==> !p(#[trigger] tabs@[j]),
        decreases tabs.len() - i,
    {
        let t = &tabs[i];
        if !t.tab_id.as_str().is_empty() {
            let name = sanitise_workspace(t.label.as_str());
            if same_text(name.as_str(), task) {
                proof {
                    crate::text::lemma_first_index_is(tabs@, p, i as int);
                }
                return Some(TabRef { task: name, id: copy_text(&t.tab_id), focused: t.focused });
            }
        }
        i += 1;
    }
    proof {
        crate::text::lemma_first_index(tabs@, p);
    }
    None
}

} // verus!
