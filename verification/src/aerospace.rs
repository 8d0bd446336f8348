//! What sling needs from a window manager, and how AeroSpace's answers are
//! read. Running `aerospace` itself is the program's business; everything it
//! prints is read here.
use vstd::prelude::*;

use crate::names::NameMap;
use crate::picker::{field, opt_text, parse_window, reads_as_window, Occupancy, Window};
use crate::text::{chars_of, lines, lines_exec, splitn, string_of, trim, trim_chars};

verus! {

pub const BIN: &'static str = "/opt/homebrew/bin/aerospace";

/// How long a query may take, in seconds. A wedged server never answers, so
/// waiting longer costs one slow menu; a tight timeout on a loaded machine
/// costs a wrong one.
pub const TIMEOUT_SECS: u64 = 5;

pub const FORMAT: &'static str =
    "%{window-id}|%{workspace}|%{monitor-id}|%{app-name}|%{app-bundle-id}|%{window-title}";

/// What sling needs from a window manager. A trait so the flow can be
/// driven without a running AeroSpace.
///
/// Each answer is the window manager's to give and may change from one call
/// to the next, so each method says only that its answer is one the window
/// manager may give: the `*_answer` relations. By default they allow any
/// answer; an implementation that promises more may narrow them. Code
/// written against the trait cannot see either way, so what it states holds
/// whatever the window manager answers.
pub trait WindowManager {
    /// Whether the window manager may report `w` as the focused window.
    open spec fn focused_answer(&self, w: Option<Window>) -> bool {
        true
    }

    fn focused_window(&self) -> (r: Option<Window>)
        ensures
            self.focused_answer(r),
    ;

    /// Whether the window manager may list these windows.
    open spec fn windows_answer(&self, windows: Option<Seq<Window>>) -> bool {
        true
    }

    /// Every window AeroSpace manages, across all workspaces.
    fn all_windows(&self) -> (r: Option<Vec<Window>>)
        ensures
            self.windows_answer(
                match r {
                    Some(v) => Some(v@),
                    None => None,
                },
            ),
    ;

    /// Whether the window manager may give these counts.
    open spec fn counts_answer(&self, counts: Option<NameMap<usize>>) -> bool {
        true
    }

    /// How many windows each workspace holds; `None` if the query failed.
    /// Workspaces holding nothing are absent rather than zero.
    fn window_counts(&self) -> (r: Option<NameMap<usize>>)
        ensures
            self.counts_answer(r),
    ;

    /// Whether focusing window `id` may come back `ok`.
    open spec fn focus_answer(&self, id: Seq<char>, ok: bool) -> bool {
        true
    }

    /// Focus a window by id, returning whether it actually took.
    fn focus(&self, window_id: &str) -> (r: bool)
        ensures
            self.focus_answer(window_id@, r),
    ;

    fn move_focused_to(&self, workspace: &str) -> bool;

    /// Whether bringing `workspace` to the front may come back `ok`.
    open spec fn focus_workspace_answer(&self, workspace: Seq<char>, ok: bool) -> bool {
        true
    }

    /// Bring a workspace to the front.
    fn focus_workspace(&self, workspace: &str) -> (r: bool)
        ensures
            self.focus_workspace_answer(workspace@, r),
    ;

    /// Whether moving window `id` to `workspace` may come back `ok`.
    open spec fn move_answer(&self, id: Seq<char>, workspace: Seq<char>, ok: bool) -> bool {
        true
    }

    /// Move a window by id, without focusing it first.
    fn move_window(&self, window_id: &str, workspace: &str) -> (r: bool)
        ensures
            self.move_answer(window_id@, workspace@, r),
    ;

    /// Whether the window manager may report `monitor` as being worked on.
    open spec fn monitor_answer(&self, monitor: Option<Seq<char>>) -> bool {
        true
    }

    /// The screen currently being worked on.
    fn focused_monitor(&self) -> (r: Option<String>)
        ensures
            self.monitor_answer(opt_text(r)),
    ;

    /// Whether the window manager may report this occupancy.
    open spec fn occupancy_answer(&self, occupancy: Option<NameMap<Occupancy>>) -> bool {
        true
    }

    /// What each workspace holds. `occupancy_by_counts` gives the counts with
    /// no icons, for a window manager that can say no more.
    fn occupancy(&self) -> (r: Option<NameMap<Occupancy>>)
        ensures
            self.occupancy_answer(r),
    ;

    /// Whether the window manager may list these workspaces.
    open spec fn workspaces_answer(&self, names: Option<Seq<Seq<char>>>) -> bool {
        true
    }

    /// Every workspace the window manager knows of. `workspaces_by_counts`
    /// gives those that hold a window.
    fn all_workspaces(&self) -> (r: Option<Vec<String>>)
        ensures
            self.workspaces_answer(
                match r {
                    Some(v) => Some(crate::text::views(v@)),
                    None => None,
                },
            ),
    ;

    /// Whether the window manager may report `here` as the workspace being
    /// looked at.
    open spec fn here_answer(&self, here: Option<Seq<char>>) -> bool {
        true
    }

    /// The workspace being looked at. `workspace_of_focused` gives the focused
    /// window's.
    fn focused_workspace(&self) -> (r: Option<String>)
        ensures
            self.here_answer(opt_text(r)),
    ;
}

/// What each workspace holds, from the counts alone: no icons.
pub fn occupancy_by_counts<W: WindowManager>(wm: &W) -> (r: Option<NameMap<Occupancy>>)
    ensures
        exists|counts: Option<NameMap<usize>>| #[trigger] wm.counts_answer(counts) && match counts {
            None => r is None,
            Some(c) => r matches Some(m) && (forall|x: Seq<char>| #[trigger] m.has(x) <==> c.has(x))
                && forall|x: Seq<char>|
                #[trigger] m.has(x) ==> m.lookup(x).unwrap().count == c.lookup(x).unwrap()
                    && m.lookup(x).unwrap().stack@.len() == 0,
        },
{
    let counts = wm.window_counts();
    match counts {
        Some(c) => {
            let m = occupancy_of_counts(&c);
            assert(wm.counts_answer(Some(c)));
            Some(m)
        },
        None => {
            assert(wm.counts_answer(None));
            None
        },
    }
}

/// The workspaces that hold a window, alphabetically.
pub fn workspaces_by_counts<W: WindowManager>(wm: &W) -> (r: Option<Vec<String>>)
    ensures
        exists|counts: Option<NameMap<usize>>| #[trigger] wm.counts_answer(counts) && match counts {
            None => r is None,
            Some(c) => r matches Some(v) && crate::text::views(v@) == c.keys(),
        },
        r matches Some(v) ==> crate::names::strictly_sorted(crate::text::views(v@)),
{
    match wm.window_counts() {
        Some(counts) => {
            proof {
                use_type_invariant(&counts);
            }
            assert(wm.counts_answer(Some(counts)));
            Some(counts.names())
        },
        None => {
            assert(wm.counts_answer(None));
            None
        },
    }
}

/// The focused window's workspace.
pub fn workspace_of_focused<W: WindowManager>(wm: &W) -> (r: Option<String>)
    ensures
        exists|w: Option<Window>| #[trigger] wm.focused_answer(w) && opt_text(r) == match w {
            Some(w) => Some(w.workspace@),
            None => None,
        },
{
    match wm.focused_window() {
        Some(w) => {
            assert(wm.focused_answer(Some(w)));
            Some(w.workspace)
        },
        None => {
            assert(wm.focused_answer(None));
            None
        },
    }
}

/// Counts as occupancy with no icons.
pub fn occupancy_of_counts(counts: &NameMap<usize>) -> (m: NameMap<Occupancy>)
    ensures
        forall|x: Seq<char>| #[trigger] m.has(x) <==> counts.has(x),
        forall|x: Seq<char>|
            #[trigger] m.has(x) ==> m.lookup(x).unwrap().count == counts.lookup(x).unwrap()
                && m.lookup(x).unwrap().stack@.len() == 0,
{
    let mut m: NameMap<Occupancy> = NameMap::new();
    let mut i: usize = 0;
    proof {
        use_type_invariant(counts);
    }
    while i < counts.len()
        invariant
            i <= counts.keys().len(),
            counts.ordered(),
            forall|x: Seq<char>| #[trigger] m.has(x) <==> counts.keys().take(i as int).contains(x),
            forall|x: Seq<char>|
                #[trigger] m.has(x) ==> m.lookup(x).unwrap().count == counts.lookup(x).unwrap()
                    && m.lookup(x).unwrap().stack@.len() == 0,
        decreases counts.keys().len() - i,
    {
        proof {
            counts.lemma_shape();
            counts.lemma_position(i as int);
        }
        let name = counts.key_at(i);
        let n = *counts.value_at(i);
        m.insert(crate::text::copy_text(name), Occupancy { count: n, stack: Vec::new() });
        proof {
            let ks = counts.keys();
            assert(ks.take(i + 1) =~= ks.take(i as int).push(ks[i as int]));
            broadcast use vstd::seq_lib::group_seq_properties;
            assert forall|x: Seq<char>| #[trigger] m.has(x) implies m.lookup(x).unwrap().count
                == counts.lookup(x).unwrap() && m.lookup(x).unwrap().stack@.len() == 0 by {
                if x != ks[i as int] {
                    assert(ks.take(i as int).contains(x));
                }
            }
        }
        i += 1;
    }
    proof {
        assert(counts.keys().take(counts.keys().len() as int) =~= counts.keys());
    }
    m
}

/// Why a call produced nothing. Kept apart from `None` so that "AeroSpace is
/// wedged" and "AeroSpace answered, with nothing" stay distinguishable — they
/// call for opposite reactions.
#[derive(Debug, Clone, PartialEq, Eq)]
pub enum CallFailure {
    /// The binary could not be started at all.
    Spawn,
    /// It ran and refused.
    Status(Option<i32>),
    /// It never answered. A wedged server looks like this.
    Timeout,
}

/// How many lines of a listing name each workspace, blank lines aside.
pub open spec fn listed_count(ls: Seq<Seq<char>>, x: Seq<char>) -> nat
    decreases ls.len(),
{
    if ls.len() == 0 {
        0
    } else {
        listed_count(ls.drop_last(), x) + if trim(ls.last()) == x {
            1nat
        } else {
            0nat
        }
    }
}

/// Read a `list-windows --format %{workspace}` listing into counts.
///
/// Asked of the windows rather than of `list-workspaces --all`, which also
/// reports whichever workspace is active on each monitor even when it is
/// empty. Counting an empty workspace as occupied would be a lie.
pub fn counts_from_listing(out: &str) -> (m: NameMap<usize>)
    ensures
        forall|x: Seq<char>|
            #[trigger] m.has(x) <==> (x.len() > 0 && exists|k: int|
                0 <= k < lines(out@).len() && #[trigger] trim(lines(out@)[k]) == x),
        forall|x: Seq<char>| #[trigger] m.has(x) ==> m.lookup(x) == Some(
            listed_count(lines(out@), x) as usize,
        ),
{
    let ls = lines_exec(chars_of(out).as_slice());
    let ghost lv = lines(out@);
    let mut m: NameMap<usize> = NameMap::new();
    let mut i: usize = 0;
    while i < ls.len()
        invariant
            i <= ls@.len(),
            ls@.len() == lv.len(),
            lv == lines(out@),
            forall|k: int| 0 <= k < ls@.len() ==> #[trigger] ls@[k]@ == lv[k],
            forall|x: Seq<char>|
                #[trigger] m.has(x) <==> (x.len() > 0 && exists|k: int|
                    0 <= k < i && #[trigger] trim(lv[k]) == x),
            forall|x: Seq<char>| #[trigger] m.has(x) ==> m.lookup(x) == Some(
                listed_count(lv.take(i as int), x) as usize,
            ),
            forall|x: Seq<char>| #[trigger] listed_count(lv.take(i as int), x) <= i,
        decreases ls.len() - i,
    {
        let name = trim_chars(ls[i].as_slice());
        let ghost nv = name@;
        proof {
            assert(lv.take(i + 1).drop_last() =~= lv.take(i as int));
            assert(lv.take(i + 1).last() == lv[i as int]);
        }
        if name.len() > 0 {
            let key = string_of(name.as_slice());
            let n: usize = match m.get(key.as_str()) {
                Some(v) => *v,
                None => 0,
            };
            proof {
                if !m.has(nv) {
                    lemma_listed_absent(lv.take(i as int), nv);
                }
            }
            m.insert(key, n + 1);
        }
        proof {
            assert forall|x: Seq<char>| #[trigger] m.has(x) <==> (x.len() > 0 && exists|k: int|
                0 <= k < i + 1 && #[trigger] trim(lv[k]) == x) by {
                if x.len() > 0 && exists|k: int| 0 <= k < i + 1 && #[trigger] trim(lv[k]) == x {
                    let k = choose|k: int| 0 <= k < i + 1 && #[trigger] trim(lv[k]) == x;
                    if k < i {
                    }
                }
            }
            assert forall|x: Seq<char>| #[trigger] listed_count(lv.take(i + 1), x) <= i + 1 by {
                assert(lv.take(i + 1).drop_last() =~= lv.take(i as int));
                assert(listed_count(lv.take(i as int), x) <= i);
            }
        }
        i += 1;
    }
    proof {
        assert(lv.take(lv.len() as int) =~= lv);
    }
    m
}

proof fn lemma_listed_absent(ls: Seq<Seq<char>>, x: Seq<char>)
    requires
        forall|k: int| 0 <= k < ls.len() ==> trim(#[trigger] ls[k]) != x,
    ensures
        listed_count(ls, x) == 0,
    decreases ls.len(),
{
    if ls.len() > 0 {
        assert forall|k: int| 0 <= k < ls.drop_last().len() implies trim(
            #[trigger] ls.drop_last()[k],
        ) != x by {
            assert(ls.drop_last()[k] == ls[k]);
        }
        lemma_listed_absent(ls.drop_last(), x);
        assert(trim(ls[ls.len() - 1]) != x);
    }
}

/// The window a listing line describes, field by field.
pub open spec fn describes(w: Window, line: Seq<char>) -> bool {
    let parts = splitn(line, 6, '|');
    &&& w.id@ == field(parts, 0)
    &&& w.workspace@ == field(parts, 1)
    &&& w.monitor@ == field(parts, 2)
    &&& w.app@ == field(parts, 3)
    &&& w.bundle@ == field(parts, 4)
    &&& w.title@ == field(parts, 5)
}

/// The lines of a listing that read as windows, in order.
pub open spec fn window_lines(out: Seq<char>) -> Seq<Seq<char>> {
    lines(out).filter(|l: Seq<char>| reads_as_window(l))
}

/// The windows a `list-windows` listing describes, in order; lines that do
/// not read as a window are left out.
pub fn windows_from_listing(out: &str) -> (r: Vec<Window>)
    ensures
        r@.len() == window_lines(out@).len(),
        forall|k: int| 0 <= k < r@.len() ==> describes(#[trigger] r@[k], window_lines(out@)[k]),
{
    let ls = lines_exec(chars_of(out).as_slice());
    let ghost lv = lines(out@);
    let ghost keep = |l: Seq<char>| reads_as_window(l);
    let mut r: Vec<Window> = Vec::new();
    let mut i: usize = 0;
    while i < ls.len()
        invariant
            i <= ls@.len(),
            ls@.len() == lv.len(),
            lv == lines(out@),
            keep == (|l: Seq<char>| reads_as_window(l)),
            forall|k: int| 0 <= k < ls@.len() ==> #[trigger] ls@[k]@ == lv[k],
            r@.len() == lv.take(i as int).filter(keep).len(),
            forall|k: int|
                0 <= k < r@.len() ==> describes(#[trigger] r@[k], lv.take(i as int).filter(keep)[k]),
        decreases ls.len() - i,
    {
        proof {
            assert(lv.take(i + 1) =~= lv.take(i as int).push(lv[i as int]));
            lv.take(i as int).lemma_filter_push(lv[i as int], keep);
        }
        let line = string_of(ls[i].as_slice());
        match parse_window(line.as_str()) {
            Some(w) => r.push(w),
            None => {},
        }
        i += 1;
    }
    assert(lv.take(lv.len() as int) =~= lv);
    r
}

/// The window on the first line of a `list-windows --focused` answer.
pub fn first_window(out: &str) -> (r: Option<Window>)
    ensures
        lines(out@).len() == 0 ==> r is None,
        lines(out@).len() > 0 ==> (r is Some <==> reads_as_window(lines(out@)[0])),
        r matches Some(w) ==> describes(w, lines(out@)[0]),
{
    let ls = lines_exec(chars_of(out).as_slice());
    if ls.len() == 0 {
        return None;
    }
    let line = string_of(ls[0].as_slice());
    parse_window(line.as_str())
}

/// The first line of an answer, trimmed.
pub fn first_line(out: &str) -> (r: Option<String>)
    ensures
        lines(out@).len() == 0 <==> r is None,
        r matches Some(l) ==> l@ == trim(lines(out@)[0]),
{
    let ls = lines_exec(chars_of(out).as_slice());
    if ls.len() == 0 {
        return None;
    }
    Some(string_of(trim_chars(ls[0].as_slice()).as_slice()))
}

} // verus!
