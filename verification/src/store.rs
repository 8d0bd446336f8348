//! State that outlives a single sling: the name cache, the follow list, the
//! pins, the layout snapshot and what is read back out of the action log.
//!
//! All of it lives under `~/.local/state/slingr/`, outside the repository —
//! they are observations, not source. Reading and writing the files is the
//! program's business; what the lists mean, and how each changes, is here.
use vstd::prelude::*;

use crate::json::{json_string_at, string_at};
use crate::picker::opt_text;
use crate::text::{
    append_chars, chars_of, copy_text, lines, lines_exec, owned, padded_int, padded_int_chars,
    same_text, sort_texts, sorted_texts, string_of, views, first_index, lemma_first_index,
    lemma_first_index_is,
};

verus! {

// ---------------------------------------------------------------------------
// Timestamps
// ---------------------------------------------------------------------------

/// The proleptic Gregorian date of a day counted from 1970-01-01, as
/// `(year, month, day)`: Howard Hinnant's days-to-civil.
pub open spec fn civil(days: int) -> (int, int, int) {
    let z = days + 719_468;
    let era = z / 146_097;
    let doe = z - era * 146_097;
    let yoe = (doe - doe / 1460 + doe / 36_524 - doe / 146_096) / 365;
    let y = yoe + era * 400;
    let doy = doe - (365 * yoe + yoe / 4 - yoe / 100);
    let mp = (5 * doy + 2) / 153;
    let d = doy - (153 * mp + 2) / 5 + 1;
    let m = if mp < 10 {
        mp + 3
    } else {
        mp - 9
    };
    (if m <= 2 {
        y + 1
    } else {
        y
    }, m, d)
}

/// A UTC instant written `YYYY-MM-DDTHH:MM:SSZ`.
pub open spec fn iso8601_text(secs: int) -> Seq<char> {
    let days = secs / 86_400;
    let rem = secs % 86_400;
    let (y, m, d) = civil(days);
    padded_int(y, 4) + "-"@ + padded_int(m, 2) + "-"@ + padded_int(d, 2) + "T"@ + padded_int(
        rem / 3600,
        2,
    ) + ":"@ + padded_int((rem % 3600) / 60, 2) + ":"@ + padded_int(rem % 60, 2) + "Z"@
}

/// Howard Hinnant's days-to-civil, the standard branch-free conversion.
#[verifier::spinoff_prover]
#[verifier::rlimit(60)]
fn civil_from_days(days: i64) -> (r: (i64, i64, i64))
    requires
        -200_000_000_000_000 <= days <= 200_000_000_000_000,
    ensures
        (r.0 as int, r.1 as int, r.2 as int) == civil(days as int),
{
    let z = days + 719_468;
    let era = match z.checked_div_euclid(146_097) {
        Some(e) => e,
        None => 0,
    };
    let doe = z - era * 146_097;
    let yoe = (doe - doe / 1460 + doe / 36_524 - doe / 146_096) / 365;
    let y = yoe + era * 400;
    let doy = doe - (365 * yoe + yoe / 4 - yoe / 100);
    let mp = (5 * doy + 2) / 153;
    let d = doy - (153 * mp + 2) / 5 + 1;
    let m = if mp < 10 {
        mp + 3
    } else {
        mp - 9
    };
    (if m <= 2 {
        y + 1
    } else {
        y
    }, m, d)
}

/// UTC timestamp, so a log line is readable without a tool.
pub fn iso8601(secs: i64) -> (r: String)
    ensures
        r@ == iso8601_text(secs as int),
{
    let days = match secs.checked_div_euclid(86_400) {
        Some(d) => d,
        None => 0,
    };
    let rem = match secs.checked_rem_euclid(86_400) {
        Some(r) => r,
        None => 0,
    };
    let (y, m, d) = civil_from_days(days);
    let mut out = padded_int_chars(y, 4);
    out.push('-');
    append_chars(&mut out, padded_int_chars(m, 2).as_slice());
    out.push('-');
    append_chars(&mut out, padded_int_chars(d, 2).as_slice());
    out.push('T');
    append_chars(&mut out, padded_int_chars(rem / 3600, 2).as_slice());
    out.push(':');
    append_chars(&mut out, padded_int_chars((rem % 3600) / 60, 2).as_slice());
    out.push(':');
    append_chars(&mut out, padded_int_chars(rem % 60, 2).as_slice());
    out.push('Z');
    proof {
        reveal_strlit("-");
        reveal_strlit("T");
        reveal_strlit(":");
        reveal_strlit("Z");
        assert(out@ =~= iso8601_text(secs as int));
    }
    string_of(out.as_slice())
}

// ---------------------------------------------------------------------------
// The name cache
// ---------------------------------------------------------------------------

/// Every workspace name ever seen or created.
///
/// AeroSpace forgets a workspace once it is empty and not on screen, so a task
/// invented through "new workspace…" would vanish from the menu as soon as it
/// emptied. The cache is what lets a name persist without editing config — and
/// what keeps the menu usable when AeroSpace is not answering.
#[derive(Debug, Default)]
pub struct NameCache {
    pub workspaces: Vec<String>,
}

/// The names a merge adds, in the order met: each non-blank name that is
/// neither held already nor met earlier in the same merge.
pub open spec fn additions(held: Seq<Seq<char>>, names: Seq<Seq<char>>) -> Seq<Seq<char>>
    decreases names.len(),
{
    if names.len() == 0 {
        Seq::<Seq<char>>::empty()
    } else {
        let earlier = additions(held, names.drop_last());
        let x = names.last();
        if x.len() > 0 && !held.contains(x) && !earlier.contains(x) {
            earlier.push(x)
        } else {
            earlier
        }
    }
}

/// The cache after a merge: unchanged when nothing is new, and otherwise
/// everything, new names included, in sorted order.
pub open spec fn merged(held: Seq<Seq<char>>, names: Seq<Seq<char>>) -> Seq<Seq<char>> {
    let added = additions(held, names);
    if added.len() > 0 {
        sorted_texts(held + added)
    } else {
        held
    }
}

/// Whether a list of strings holds one that reads `x`.
pub fn holds_text(v: &Vec<String>, x: &str) -> (r: bool)
    ensures
        r == views(v@).contains(x@),
{
    let mut i: usize = 0;
    while i < v.len()
        invariant
            i <= v@.len(),
            forall|k: int| 0 <= k < i ==> views(v@)[k] != x@,
        decreases v.len() - i,
    {
        if same_text(v[i].as_str(), x) {
            assert(views(v@)[i as int] == x@);
            return true;
        }
        i += 1;
    }
    false
}

proof fn lemma_additions_cover(held: Seq<Seq<char>>, names: Seq<Seq<char>>)
    ensures
        forall|k: int|
            0 <= k < names.len() && (#[trigger] names[k]).len() > 0 ==> held.contains(names[k])
                || additions(held, names).contains(names[k]),
        forall|x: Seq<char>| #[trigger] additions(held, names).contains(x) ==> x.len() > 0,
    decreases names.len(),
{
    if names.len() > 0 {
        let init = names.drop_last();
        lemma_additions_cover(held, init);
        let earlier = additions(held, init);
        let x = names.last();
        assert forall|k: int|
            0 <= k < names.len() && (#[trigger] names[k]).len() > 0 implies held.contains(names[k])
                || additions(held, names).contains(names[k]) by {
            if k < names.len() - 1 {
                assert(init[k] == names[k]);
                if earlier.contains(names[k]) {
                    let j = choose|j: int| 0 <= j < earlier.len() && earlier[j] == names[k];
                    if x.len() > 0 && !held.contains(x) && !earlier.contains(x) {
                        assert(earlier.push(x)[j] == names[k]);
                    }
                }
            } else {
                if x.len() > 0 && !held.contains(x) && !earlier.contains(x) {
                    assert(earlier.push(x)[earlier.len() as int] == x);
                }
            }
        }
        assert forall|y: Seq<char>| #[trigger] additions(held, names).contains(y) implies y.len()
            > 0 by {
            if x.len() > 0 && !held.contains(x) && !earlier.contains(x) {
                let j = choose|j: int| 0 <= j < earlier.len() + 1 && earlier.push(x)[j] == y;
                if j < earlier.len() {
                    assert(earlier[j] == y);
                    assert(earlier.contains(y));
                }
            } else {
                assert(earlier.contains(y));
            }
        }
    }
}

proof fn lemma_additions_none(held: Seq<Seq<char>>, names: Seq<Seq<char>>)
    requires
        forall|k: int| 0 <= k < names.len() && (#[trigger] names[k]).len() > 0 ==> held.contains(names[k]),
    ensures
        additions(held, names).len() == 0,
    decreases names.len(),
{
    if names.len() > 0 {
        let init = names.drop_last();
        assert forall|k: int| 0 <= k < init.len() && (#[trigger] init[k]).len() > 0 implies held.contains(
            init[k],
        ) by {
            assert(init[k] == names[k]);
        }
        lemma_additions_none(held, init);
        assert(names.last() == names[names.len() - 1]);
    }
}

/// Merging the same names a second time changes nothing and says so.
pub proof fn lemma_merge_idempotent(held: Seq<Seq<char>>, names: Seq<Seq<char>>)
    ensures
        additions(merged(held, names), names).len() == 0,
        merged(merged(held, names), names) == merged(held, names),
{
    lemma_additions_cover(held, names);
    let once = merged(held, names);
    let added = additions(held, names);
    assert forall|k: int| 0 <= k < names.len() && (#[trigger] names[k]).len() > 0 implies once.contains(
        names[k],
    ) by {
        if added.len() > 0 {
            crate::text::lemma_sorted_contains(held + added, names[k]);
            if held.contains(names[k]) {
                let j = choose|j: int| 0 <= j < held.len() && held[j] == names[k];
                assert((held + added)[j] == names[k]);
            } else {
                let j = choose|j: int| 0 <= j < added.len() && added[j] == names[k];
                assert((held + added)[held.len() + j] == names[k]);
            }
        }
    }
    lemma_additions_none(once, names);
}

proof fn lemma_additions_from(held: Seq<Seq<char>>, names: Seq<Seq<char>>, x: Seq<char>)
    ensures
        additions(held, names).contains(x) ==> names.contains(x),
    decreases names.len(),
{
    if names.len() > 0 {
        let init = names.drop_last();
        lemma_additions_from(held, init, x);
        let earlier = additions(held, init);
        if additions(held, names).contains(x) {
            if earlier.contains(x) {
                let j = choose|j: int| 0 <= j < init.len() && init[j] == x;
                assert(names[j] == x);
            } else {
                assert(x == names.last());
                assert(names[names.len() - 1] == x);
            }
        }
    }
}

/// After a merge the cache holds a name exactly when it held it before or
/// the name is a non-blank one of those merged.
pub proof fn lemma_merge_holds(held: Seq<Seq<char>>, names: Seq<Seq<char>>, x: Seq<char>)
    ensures
        merged(held, names).contains(x) <==> (held.contains(x) || (x.len() > 0 && names.contains(x))),
{
    lemma_additions_cover(held, names);
    lemma_additions_from(held, names, x);
    let added = additions(held, names);
    if x.len() > 0 && names.contains(x) {
        let k = choose|k: int| 0 <= k < names.len() && names[k] == x;
        assert(names[k].len() > 0);
    }
    if added.len() > 0 {
        crate::text::lemma_sorted_contains(held + added, x);
        if held.contains(x) {
            let j = choose|j: int| 0 <= j < held.len() && held[j] == x;
            assert((held + added)[j] == x);
        }
        if added.contains(x) {
            let j = choose|j: int| 0 <= j < added.len() && added[j] == x;
            assert((held + added)[held.len() + j] == x);
        }
        if (held + added).contains(x) {
            let j = choose|j: int| 0 <= j < held.len() + added.len() && (held + added)[j] == x;
            if j < held.len() {
                assert(held[j] == x);
            } else {
                assert(added[j - held.len()] == x);
            }
        }
    } else {
        if x.len() > 0 && names.contains(x) && !held.contains(x) {
            assert(added.contains(x));
            assert(false);
        }
    }
}

impl NameCache {
    /// Returns true if anything was new.
    pub fn merge(&mut self, names: &[String]) -> (changed: bool)
        ensures
            changed == (additions(views(old(self).workspaces@), views(names@)).len() > 0),
            views(final(self).workspaces@) == merged(views(old(self).workspaces@), views(names@)),
    {
        let ghost held = views(self.workspaces@);
        let mut changed = false;
        let mut i: usize = 0;
        while i < names.len()
            invariant
                i <= names@.len(),
                views(self.workspaces@) == held + additions(held, views(names@).take(i as int)),
                changed == (additions(held, views(names@).take(i as int)).len() > 0),
            decreases names.len() - i,
        {
            let ghost ns = views(names@);
            proof {
                assert(ns.take(i + 1).drop_last() =~= ns.take(i as int));
                assert(ns.take(i + 1).last() == ns[i as int]);
            }
            let name = &names[i];
            if !name.as_str().is_empty() && !holds_text(&self.workspaces, name.as_str()) {
                let ghost before = self.workspaces@;
                self.workspaces.push(copy_text(name));
                changed = true;
                proof {
                    let added = additions(held, ns.take(i as int));
                    assert(views(self.workspaces@) =~= views(before).push(name@));
                    assert(!held.contains(name@)) by {
                        if held.contains(name@) {
                            let j = choose|j: int| 0 <= j < held.len() && held[j] == name@;
                            assert((held + added)[j] == name@);
                        }
                    }
                    assert(!added.contains(name@)) by {
                        if added.contains(name@) {
                            let j = choose|j: int| 0 <= j < added.len() && added[j] == name@;
                            assert((held + added)[held.len() + j] == name@);
                        }
                    }
                    assert(held + added.push(name@) =~= (held + added).push(name@));
                }
            } else {
                proof {
                    let added = additions(held, ns.take(i as int));
                    if name@.len() > 0 {
                        assert(views(self.workspaces@).contains(name@));
                        let j = choose|j: int| 0 <= j < (held + added).len() && (held + added)[j] == name@;
                        if j < held.len() {
                            assert(held[j] == name@);
                        } else {
                            assert(added[j - held.len()] == name@);
                        }
                    }
                }
            }
            i += 1;
        }
        proof {
            assert(views(names@).take(names@.len() as int) =~= views(names@));
        }
        if changed {
            let sorted = sort_texts(&self.workspaces);
            self.workspaces = sorted;
        }
        changed
    }
}

// ---------------------------------------------------------------------------
// The follow list
// ---------------------------------------------------------------------------

/// A window that comes along to every task. The app and title are kept so a
/// stale entry — window ids do not survive an application restart — is still
/// legible.
#[derive(Debug, Clone)]
pub struct Follower {
    pub id: String,
    pub app: String,
    pub title: String,
}

/// An application all of whose windows come along, by bundle id.
#[derive(Debug, Clone)]
pub struct FollowedApp {
    pub bundle: String,
    pub name: String,
}

/// Windows that get dragged along to whichever task you go to.
///
/// Poor man's persistence. AeroSpace has no sticky windows, so a window cannot
/// be in two workspaces; this keeps the handful that belong everywhere —
/// herdr, WhatsApp — with you by moving them each time you arrive somewhere.
#[derive(Debug, Default)]
pub struct FollowList {
    pub windows: Vec<Follower>,
    /// Whole applications, by bundle id.
    ///
    /// Following a window is right for one of several — the herdr terminal
    /// among other terminals. Following an application is right when its
    /// windows are interchangeable and short-lived: Finder opens and closes
    /// windows all day, and "Finder belongs everywhere" is a fact about
    /// Finder, not about whichever window happens to be open.
    pub apps: Vec<FollowedApp>,
    /// Windows slung somewhere deliberately, and so no longer everywhere
    /// although their application is by nature.
    pub grounded: Vec<Follower>,
}

pub open spec fn follower_view(f: Follower) -> (Seq<char>, Seq<char>, Seq<char>) {
    (f.id@, f.app@, f.title@)
}

pub open spec fn followers(ws: Seq<Follower>) -> Seq<(Seq<char>, Seq<char>, Seq<char>)> {
    ws.map_values(|f: Follower| follower_view(f))
}

pub open spec fn follower_ids(ws: Seq<Follower>) -> Seq<Seq<char>> {
    ws.map_values(|f: Follower| f.id@)
}

pub open spec fn app_view(a: FollowedApp) -> (Seq<char>, Seq<char>) {
    (a.bundle@, a.name@)
}

pub open spec fn followed_apps(apps: Seq<FollowedApp>) -> Seq<(Seq<char>, Seq<char>)> {
    apps.map_values(|a: FollowedApp| app_view(a))
}

pub open spec fn app_bundles(apps: Seq<FollowedApp>) -> Seq<Seq<char>> {
    apps.map_values(|a: FollowedApp| a.bundle@)
}

/// Whether an entry is for some other window than `id`.
pub open spec fn other_than(id: Seq<char>) -> spec_fn((Seq<char>, Seq<char>, Seq<char>)) -> bool {
    |f: (Seq<char>, Seq<char>, Seq<char>)| f.0 != id
}

/// Whether an entry is for the application `bundle`.
pub open spec fn for_bundle(bundle: Seq<char>) -> spec_fn((Seq<char>, Seq<char>)) -> bool {
    |a: (Seq<char>, Seq<char>)| a.0 == bundle
}

/// A list of entries with one key taken out wherever it occurs.
pub open spec fn without_id(
    ws: Seq<(Seq<char>, Seq<char>, Seq<char>)>,
    id: Seq<char>,
) -> Seq<(Seq<char>, Seq<char>, Seq<char>)> {
    ws.filter(other_than(id))
}

/// What toggling a window does to the list: every entry for it goes if it
/// was there, and one is added if it was not.
pub open spec fn window_toggled(
    ws: Seq<(Seq<char>, Seq<char>, Seq<char>)>,
    id: Seq<char>,
    app: Seq<char>,
    title: Seq<char>,
) -> Seq<(Seq<char>, Seq<char>, Seq<char>)> {
    if keys_of(ws).contains(id) {
        without_id(ws, id)
    } else {
        ws.push((id, app, title))
    }
}

/// What toggling an application does: the first entry for it goes if there
/// is one, and one is added if there is not.
pub open spec fn app_toggled(
    apps: Seq<(Seq<char>, Seq<char>)>,
    bundle: Seq<char>,
    name: Seq<char>,
) -> Seq<(Seq<char>, Seq<char>)> {
    match first_index(apps, for_bundle(bundle)) {
        Some(k) => apps.remove(k),
        None => apps.push((bundle, name)),
    }
}

pub open spec fn keys_of(ws: Seq<(Seq<char>, Seq<char>, Seq<char>)>) -> Seq<Seq<char>> {
    ws.map_values(|f: (Seq<char>, Seq<char>, Seq<char>)| f.0)
}

pub open spec fn bundles_of(apps: Seq<(Seq<char>, Seq<char>)>) -> Seq<Seq<char>> {
    apps.map_values(|a: (Seq<char>, Seq<char>)| a.0)
}

proof fn lemma_keys_filter(ws: Seq<(Seq<char>, Seq<char>, Seq<char>)>, id: Seq<char>, x: Seq<char>)
    ensures
        keys_of(without_id(ws, id)).contains(x) <==> (x != id && keys_of(ws).contains(x)),
    decreases ws.len(),
{
    let keep = other_than(id);
    if ws.len() > 0 {
        let init = ws.drop_last();
        lemma_keys_filter(init, id, x);
        assert(ws =~= init.push(ws.last()));
        init.lemma_filter_push(ws.last(), keep);
        assert(keys_of(ws) =~= keys_of(init).push(ws.last().0));
        if keep(ws.last()) {
            assert(keys_of(without_id(ws, id)) =~= keys_of(without_id(init, id)).push(ws.last().0));
        } else {
            assert(keys_of(without_id(ws, id)) =~= keys_of(without_id(init, id)));
        }
        assert(keys_of(ws).contains(x) <==> keys_of(init).contains(x) || ws.last().0 == x) by {
            if keys_of(ws).contains(x) {
                let j = choose|j: int| 0 <= j < keys_of(ws).len() && keys_of(ws)[j] == x;
                if j < init.len() {
                    assert(keys_of(init)[j] == x);
                }
            }
            if keys_of(init).contains(x) {
                let j = choose|j: int| 0 <= j < keys_of(init).len() && keys_of(init)[j] == x;
                assert(keys_of(ws)[j] == x);
            }
            if ws.last().0 == x {
                assert(keys_of(ws)[ws.len() - 1] == x);
            }
        }
        let a = keys_of(without_id(init, id));
        assert(a.push(ws.last().0).contains(x) <==> a.contains(x) || ws.last().0 == x) by {
            if a.push(ws.last().0).contains(x) {
                let j = choose|j: int| 0 <= j < a.len() + 1 && a.push(ws.last().0)[j] == x;
                if j < a.len() {
                    assert(a[j] == x);
                }
            }
            if a.contains(x) {
                let j = choose|j: int| 0 <= j < a.len() && a[j] == x;
                assert(a.push(ws.last().0)[j] == x);
            }
            assert(a.push(ws.last().0)[a.len() as int] == ws.last().0);
        }
    } else {
        assert(without_id(ws, id) =~= ws);
    }
}

/// Toggling a window twice leaves every window's membership as it was; when
/// the window was not following to begin with, the list is exactly restored.
pub proof fn lemma_toggle_twice(
    ws: Seq<(Seq<char>, Seq<char>, Seq<char>)>,
    id: Seq<char>,
    app: Seq<char>,
    title: Seq<char>,
    x: Seq<char>,
)
    ensures
        keys_of(window_toggled(window_toggled(ws, id, app, title), id, app, title)).contains(x)
            == keys_of(ws).contains(x),
        !keys_of(ws).contains(id) ==> window_toggled(window_toggled(ws, id, app, title), id, app, title)
            == ws,
{
    let once = window_toggled(ws, id, app, title);
    if keys_of(ws).contains(id) {
        lemma_keys_filter(ws, id, id);
        lemma_keys_filter(ws, id, x);
        let twice = once.push((id, app, title));
        assert(keys_of(twice) =~= keys_of(once).push(id));
        if keys_of(twice).contains(x) && x != id {
            let j = choose|j: int| 0 <= j < keys_of(twice).len() && keys_of(twice)[j] == x;
            assert(keys_of(once)[j] == x);
        }
        if x == id {
            assert(keys_of(twice)[once.len() as int] == id);
        }
        if keys_of(once).contains(x) {
            let j = choose|j: int| 0 <= j < keys_of(once).len() && keys_of(once)[j] == x;
            assert(keys_of(twice)[j] == x);
        }
    } else {
        let pushed = ws.push((id, app, title));
        assert(keys_of(pushed) =~= keys_of(ws).push(id));
        assert(keys_of(pushed)[ws.len() as int] == id);
        assert(keys_of(pushed).contains(id));
        let keep = other_than(id);
        ws.lemma_filter_push((id, app, title), keep);
        assert forall|k: int| 0 <= k < ws.len() implies keep(#[trigger] ws[k]) by {
            assert(keys_of(ws)[k] == ws[k].0);
        }
        crate::text::lemma_filter_all(ws, keep);
    }
}

/// Toggling an application twice restores the list exactly when it was not
/// followed to begin with; when it was, and only once, it is followed again
/// afterwards, now last.
pub proof fn lemma_toggle_app_twice(
    apps: Seq<(Seq<char>, Seq<char>)>,
    bundle: Seq<char>,
    name: Seq<char>,
)
    ensures
        !bundles_of(apps).contains(bundle) ==> app_toggled(app_toggled(apps, bundle, name), bundle, name)
            == apps,
        bundles_of(apps).no_duplicates() ==> bundles_of(
            app_toggled(app_toggled(apps, bundle, name), bundle, name),
        ).contains(bundle) == bundles_of(apps).contains(bundle),
{
    let p = for_bundle(bundle);
    lemma_first_index(apps, p);
    let once = app_toggled(apps, bundle, name);
    lemma_first_index(once, p);
    match first_index(apps, p) {
        Some(k) => {
            assert(bundles_of(apps)[k] == bundle);
            let twice = app_toggled(once, bundle, name);
            if bundles_of(apps).no_duplicates() {
                assert forall|j: int| 0 <= j < once.len() implies !p(#[trigger] once[j]) by {
                    if j < k {
                        assert(once[j] == apps[j]);
                    } else {
                        assert(once[j] == apps[j + 1]);
                        assert(bundles_of(apps)[j + 1] == apps[j + 1].0);
                    }
                }
                assert(twice == once.push((bundle, name)));
                assert(bundles_of(twice)[once.len() as int] == bundle);
            }
        },
        None => {
            assert(!bundles_of(apps).contains(bundle)) by {
                if bundles_of(apps).contains(bundle) {
                    let j = choose|j: int| 0 <= j < bundles_of(apps).len() && bundles_of(apps)[j] == bundle;
                    assert(p(apps[j]));
                }
            }
            assert(once == apps.push((bundle, name)));
            lemma_first_index_is(once, p, apps.len() as int);
            assert(once.remove(apps.len() as int) =~= apps);
        },
    }
}

impl FollowList {
    pub fn ids(&self) -> (r: Vec<String>)
        ensures
            views(r@) == follower_ids(self.windows@),
    {
        ids_of(&self.windows)
    }

    /// The windows slung somewhere on purpose.
    pub fn grounded_ids(&self) -> (r: Vec<String>)
        ensures
            views(r@) == follower_ids(self.grounded@),
    {
        ids_of(&self.grounded)
    }

    pub fn bundles(&self) -> (r: Vec<String>)
        ensures
            views(r@) == app_bundles(self.apps@),
    {
        let mut r: Vec<String> = Vec::new();
        let mut i: usize = 0;
        while i < self.apps.len()
            invariant
                i <= self.apps@.len(),
                views(r@) == app_bundles(self.apps@).take(i as int),
            decreases self.apps.len() - i,
        {
            let ghost before = r@;
            r.push(copy_text(&self.apps[i].bundle));
            assert(views(r@) =~= views(before).push(self.apps@[i as int].bundle@));
            assert(app_bundles(self.apps@).take(i + 1) =~= app_bundles(self.apps@).take(i as int).push(
                self.apps@[i as int].bundle@,
            ));
            i += 1;
        }
        assert(app_bundles(self.apps@).take(self.apps@.len() as int) =~= app_bundles(self.apps@));
        r
    }

    pub fn follows_app(&self, bundle: &str) -> (r: bool)
        ensures
            r == (bundle@.len() > 0 && app_bundles(self.apps@).contains(bundle@)),
    {
        if bundle.is_empty() {
            return false;
        }
        match app_position(&self.apps, bundle) {
            Some(k) => {
                proof {
                    lemma_first_index(followed_apps(self.apps@), for_bundle(bundle@));
                    assert(followed_apps(self.apps@)[k as int].0 == bundle@);
                    assert(app_bundles(self.apps@)[k as int] == bundle@);
                }
                true
            },
            None => {
                proof {
                    let p = for_bundle(bundle@);
                    lemma_first_index(followed_apps(self.apps@), p);
                    if app_bundles(self.apps@).contains(bundle@) {
                        let j = choose|j: int|
                            0 <= j < app_bundles(self.apps@).len() && app_bundles(self.apps@)[j]
                                == bundle@;
                        assert(p(followed_apps(self.apps@)[j]));
                    }
                }
                false
            },
        }
    }

    /// Returns true if the application is now followed.
    pub fn toggle_app(&mut self, bundle: &str, name: &str) -> (r: bool)
        ensures
            followed_apps(final(self).apps@) == app_toggled(followed_apps(old(self).apps@), bundle@, name@),
            r == !bundles_of(followed_apps(old(self).apps@)).contains(bundle@),
            final(self).windows@ == old(self).windows@,
            final(self).grounded@ == old(self).grounded@,
    {
        let ghost before = followed_apps(self.apps@);
        let ghost p = for_bundle(bundle@);
        proof {
            lemma_first_index(before, p);
        }
        match app_position(&self.apps, bundle) {
            Some(at) => {
                self.apps.remove(at);
                assert(followed_apps(self.apps@) =~= before.remove(at as int));
                assert(bundles_of(before)[at as int] == bundle@);
                false
            },
            None => {
                let ghost old_apps = self.apps@;
                self.apps.push(FollowedApp { bundle: owned(bundle), name: owned(name) });
                assert(followed_apps(self.apps@) =~= before.push((bundle@, name@)));
                proof {
                    if bundles_of(before).contains(bundle@) {
                        let j = choose|j: int| 0 <= j < bundles_of(before).len() && bundles_of(before)[j] == bundle@;
                        assert(p(before[j]));
                    }
                }
                true
            },
        }
    }

    pub fn contains(&self, id: &str) -> (r: bool)
        ensures
            r == follower_ids(self.windows@).contains(id@),
    {
        holds_id(&self.windows, id)
    }

    /// Returns true if the window is now following.
    pub fn toggle(&mut self, id: &str, app: &str, title: &str) -> (r: bool)
        ensures
            followers(final(self).windows@) == window_toggled(followers(old(self).windows@), id@, app@, title@),
            r == !follower_ids(old(self).windows@).contains(id@),
            final(self).apps@ == old(self).apps@,
            final(self).grounded@ == old(self).grounded@,
    {
        proof {
            assert(keys_of(followers(self.windows@)) =~= follower_ids(self.windows@));
        }
        if self.contains(id) {
            let kept = without(&self.windows, id);
            self.windows = kept;
            false
        } else {
            let ghost before = followers(self.windows@);
            self.windows.push(Follower { id: owned(id), app: owned(app), title: owned(title) });
            assert(followers(self.windows@) =~= before.push((id@, app@, title@)));
            true
        }
    }

    /// Record that a window was put somewhere on purpose. Returns true if it
    /// was not already recorded.
    pub fn ground(&mut self, id: &str, app: &str, title: &str) -> (r: bool)
        ensures
            r == !follower_ids(old(self).grounded@).contains(id@),
            r ==> followers(final(self).grounded@) == followers(old(self).grounded@).push((id@, app@, title@)),
            !r ==> final(self).grounded@ == old(self).grounded@,
            final(self).windows@ == old(self).windows@,
            final(self).apps@ == old(self).apps@,
    {
        if holds_id(&self.grounded, id) {
            false
        } else {
            let ghost before = followers(self.grounded@);
            self.grounded.push(Follower { id: owned(id), app: owned(app), title: owned(title) });
            assert(followers(self.grounded@) =~= before.push((id@, app@, title@)));
            true
        }
    }

    /// Forget that a window was put somewhere on purpose. Returns true if it
    /// had been.
    pub fn unground(&mut self, id: &str) -> (r: bool)
        ensures
            r == follower_ids(old(self).grounded@).contains(id@),
            followers(final(self).grounded@) == without_id(followers(old(self).grounded@), id@),
            final(self).windows@ == old(self).windows@,
            final(self).apps@ == old(self).apps@,
    {
        let was = holds_id(&self.grounded, id);
        let kept = without(&self.grounded, id);
        self.grounded = kept;
        was
    }
}

/// Whether a follower's window is still open.
pub open spec fn still_open(live: Seq<Seq<char>>) -> spec_fn((Seq<char>, Seq<char>, Seq<char>)) -> bool {
    |f: (Seq<char>, Seq<char>, Seq<char>)| live.contains(f.0)
}

impl FollowList {
    /// Forget the windows that are gone. Window ids do not survive an
    /// application restart, so the list goes stale when an application quits;
    /// re-tagging is one pick. Returns how many were forgotten.
    pub fn prune(&mut self, live: &[String]) -> (forgotten: usize)
        ensures
            followers(final(self).windows@) == followers(old(self).windows@).filter(
                still_open(views(live@)),
            ),
            forgotten == old(self).windows@.len() - final(self).windows@.len(),
            final(self).apps@ == old(self).apps@,
            final(self).grounded@ == old(self).grounded@,
    {
        let ghost all = followers(self.windows@);
        let ghost keep = still_open(views(live@));
        let mut kept: Vec<Follower> = Vec::new();
        let mut i: usize = 0;
        while i < self.windows.len()
            invariant
                i <= self.windows@.len(),
                all == followers(self.windows@),
                keep == still_open(views(live@)),
                followers(kept@) == all.take(i as int).filter(keep),
                kept@.len() <= i,
            decreases self.windows.len() - i,
        {
            proof {
                assert(all.take(i + 1) =~= all.take(i as int).push(all[i as int]));
                all.take(i as int).lemma_filter_push(all[i as int], keep);
            }
            let w = &self.windows[i];
            if crate::app::names_any(live, w.id.as_str()) {
                let ghost before = followers(kept@);
                kept.push(Follower { id: copy_text(&w.id), app: copy_text(&w.app), title: copy_text(&w.title) });
                assert(followers(kept@) =~= before.push(all[i as int]));
            }
            i += 1;
        }
        assert(all.take(all.len() as int) =~= all);
        let forgotten = self.windows.len() - kept.len();
        self.windows = kept;
        forgotten
    }
}

fn ids_of(ws: &Vec<Follower>) -> (r: Vec<String>)
    ensures
        views(r@) == follower_ids(ws@),
{
    let mut r: Vec<String> = Vec::new();
    let mut i: usize = 0;
    while i < ws.len()
        invariant
            i <= ws@.len(),
            views(r@) == follower_ids(ws@).take(i as int),
        decreases ws.len() - i,
    {
        let ghost before = r@;
        r.push(copy_text(&ws[i].id));
        assert(views(r@) =~= views(before).push(ws@[i as int].id@));
        assert(follower_ids(ws@).take(i + 1) =~= follower_ids(ws@).take(i as int).push(ws@[i as int].id@));
        i += 1;
    }
    assert(follower_ids(ws@).take(ws@.len() as int) =~= follower_ids(ws@));
    r
}

fn holds_id(ws: &Vec<Follower>, id: &str) -> (r: bool)
    ensures
        r == follower_ids(ws@).contains(id@),
{
    let mut i: usize = 0;
    while i < ws.len()
        invariant
            i <= ws@.len(),
            forall|k: int| 0 <= k < i ==> follower_ids(ws@)[k] != id@,
        decreases ws.len() - i,
    {
        if same_text(ws[i].id.as_str(), id) {
            assert(follower_ids(ws@)[i as int] == id@);
            return true;
        }
        i += 1;
    }
    false
}

fn without(ws: &Vec<Follower>, id: &str) -> (r: Vec<Follower>)
    ensures
        followers(r@) == without_id(followers(ws@), id@),
{
    let ghost all = followers(ws@);
    let ghost keep = other_than(id@);
    let mut r: Vec<Follower> = Vec::new();
    let mut i: usize = 0;
    while i < ws.len()
        invariant
            i <= ws@.len(),
            all == followers(ws@),
            keep == other_than(id@),
            followers(r@) == all.take(i as int).filter(keep),
        decreases ws.len() - i,
    {
        proof {
            assert(all.take(i + 1) =~= all.take(i as int).push(all[i as int]));
            all.take(i as int).lemma_filter_push(all[i as int], keep);
        }
        let w = &ws[i];
        if !same_text(w.id.as_str(), id) {
            let ghost before = followers(r@);
            r.push(Follower { id: copy_text(&w.id), app: copy_text(&w.app), title: copy_text(&w.title) });
            assert(followers(r@) =~= before.push(all[i as int]));
        }
        i += 1;
    }
    assert(all.take(all.len() as int) =~= all);
    r
}

fn app_position(apps: &Vec<FollowedApp>, bundle: &str) -> (r: Option<usize>)
    ensures
        match r {
            Some(k) => Some(k as int) == first_index(followed_apps(apps@), for_bundle(bundle@)),
            None => first_index(followed_apps(apps@), for_bundle(bundle@)) is None,
        },
{
    let ghost all = followed_apps(apps@);
    let ghost p = for_bundle(bundle@);
    let mut i: usize = 0;
    while i < apps.len()
        invariant
            i <= apps@.len(),
            all == followed_apps(apps@),
            p == for_bundle(bundle@),
            forall|j: int| 0 <= j < i ==> !p(#[trigger] all[j]),
        decreases apps.len() - i,
    {
        if same_text(apps[i].bundle.as_str(), bundle) {
            proof {
                lemma_first_index_is(all, p, i as int);
            }
            return Some(i);
        }
        i += 1;
    }
    proof {
        lemma_first_index(all, p);
    }
    None
}

// ---------------------------------------------------------------------------
// Pins
// ---------------------------------------------------------------------------

/// Tasks you want at the top.
///
/// A task is a herdr tab, and pinning is about the tab — not the project it
/// belongs to. Pinned tasks rise within their own folder rather than forming a
/// group of their own, so the grouping stays intact.
#[derive(Debug, Default)]
pub struct Pins {
    pub tasks: Vec<String>,
}

/// Whether a name is `x`.
pub open spec fn is_text(x: Seq<char>) -> spec_fn(Seq<char>) -> bool {
    |t: Seq<char>| t == x
}

/// What toggling a pin does: its first entry goes if there is one, and one
/// is added at the end if there is not.
pub open spec fn pin_toggled(tasks: Seq<Seq<char>>, task: Seq<char>) -> Seq<Seq<char>> {
    match first_index(tasks, is_text(task)) {
        Some(k) => tasks.remove(k),
        None => tasks.push(task),
    }
}

/// Toggling a pin twice restores the list exactly when the task was not
/// pinned; when it was, and only once, it is pinned again afterwards.
pub proof fn lemma_pin_twice(tasks: Seq<Seq<char>>, task: Seq<char>)
    ensures
        !tasks.contains(task) ==> pin_toggled(pin_toggled(tasks, task), task) == tasks,
        tasks.no_duplicates() ==> pin_toggled(pin_toggled(tasks, task), task).contains(task)
            == tasks.contains(task),
{
    let p = is_text(task);
    lemma_first_index(tasks, p);
    let once = pin_toggled(tasks, task);
    lemma_first_index(once, p);
    match first_index(tasks, p) {
        Some(k) => {
            assert(tasks[k] == task);
            if tasks.no_duplicates() {
                assert forall|j: int| 0 <= j < once.len() implies !p(#[trigger] once[j]) by {
                    if j < k {
                        assert(once[j] == tasks[j]);
                    } else {
                        assert(once[j] == tasks[j + 1]);
                    }
                }
                assert(pin_toggled(once, task) == once.push(task));
                assert(once.push(task)[once.len() as int] == task);
            }
        },
        None => {
            assert(!tasks.contains(task)) by {
                if tasks.contains(task) {
                    let j = choose|j: int| 0 <= j < tasks.len() && tasks[j] == task;
                    assert(p(tasks[j]));
                }
            }
            lemma_first_index_is(once, p, tasks.len() as int);
            assert(once.remove(tasks.len() as int) =~= tasks);
        },
    }
}

impl Pins {
    /// Returns true if it is now pinned.
    pub fn toggle(&mut self, task: &str) -> (r: bool)
        ensures
            views(final(self).tasks@) == pin_toggled(views(old(self).tasks@), task@),
            r == !views(old(self).tasks@).contains(task@),
    {
        let ghost before = views(self.tasks@);
        let ghost p = is_text(task@);
        let mut i: usize = 0;
        while i < self.tasks.len()
            invariant
                i <= self.tasks@.len(),
                before == views(self.tasks@),
                self.tasks@ == old(self).tasks@,
                p == is_text(task@),
                forall|j: int| 0 <= j < i ==> !p(#[trigger] before[j]),
            decreases self.tasks.len() - i,
        {
            if same_text(self.tasks[i].as_str(), task) {
                proof {
                    lemma_first_index_is(before, p, i as int);
                    assert(before[i as int] == task@);
                }
                self.tasks.remove(i);
                assert(views(self.tasks@) =~= before.remove(i as int));
                assert(before.contains(task@)) by {
                    assert(before[i as int] == task@);
                }
                return false;
            }
            i += 1;
        }
        proof {
            lemma_first_index(before, p);
            if before.contains(task@) {
                let j = choose|j: int| 0 <= j < before.len() && before[j] == task@;
                assert(p(before[j]));
            }
        }
        self.tasks.push(owned(task));
        assert(views(self.tasks@) =~= before.push(task@));
        true
    }
}

// ---------------------------------------------------------------------------
// The layout snapshot
// ---------------------------------------------------------------------------

/// Where one window was.
#[derive(Debug, Clone)]
pub struct Placed {
    pub id: String,
    pub workspace: String,
    pub app: String,
    pub title: String,
}

/// Where every window was, so a restart can be put back.
///
/// AeroSpace does not persist which workspace a window belongs to: restart it
/// and everything lands in whatever workspace each monitor happens to show.
/// This is the record that makes that recoverable.
///
/// Windows are keyed by id, which survives an AeroSpace restart because the
/// windows themselves are not recreated. It does not survive the *application*
/// restarting, so app and title are kept too — enough to recognise a window by
/// hand, and to match one whose id has changed.
#[derive(Debug, Default)]
pub struct Layout {
    pub at: String,
    pub windows: Vec<Placed>,
}

pub open spec fn live_views(live: Seq<(String, String, String)>) -> Seq<(Seq<char>, Seq<char>, Seq<char>)> {
    live.map_values(|w: (String, String, String)| (w.0@, w.1@, w.2@))
}

pub open spec fn with_id(id: Seq<char>) -> spec_fn((Seq<char>, Seq<char>, Seq<char>)) -> bool {
    |w: (Seq<char>, Seq<char>, Seq<char>)| w.0 == id
}

pub open spec fn with_app_title(app: Seq<char>, title: Seq<char>) -> spec_fn(
    (Seq<char>, Seq<char>, Seq<char>),
) -> bool {
    |w: (Seq<char>, Seq<char>, Seq<char>)| w.1 == app && w.2 == title
}

/// Which live window a saved placement is: the first with its id, else —
/// when the placement names an app or a title — the first with both.
pub open spec fn match_for(live: Seq<(Seq<char>, Seq<char>, Seq<char>)>, want: Placed) -> Option<int> {
    match first_index(live, with_id(want.id@)) {
        Some(k) => Some(k),
        None => if want.app@.len() == 0 && want.title@.len() == 0 {
            None
        } else {
            first_index(live, with_app_title(want.app@, want.title@))
        },
    }
}

/// Every saved placement that matches a live window, as the live window's id
/// and the workspace it belongs in, in the order saved.
pub open spec fn resolved(placed: Seq<Placed>, live: Seq<(Seq<char>, Seq<char>, Seq<char>)>) -> Seq<
    (Seq<char>, Seq<char>),
>
    decreases placed.len(),
{
    if placed.len() == 0 {
        Seq::<(Seq<char>, Seq<char>)>::empty()
    } else {
        let earlier = resolved(placed.drop_last(), live);
        match match_for(live, placed.last()) {
            Some(k) => earlier.push((live[k].0, placed.last().workspace@)),
            None => earlier,
        }
    }
}

pub open spec fn pair_strs(v: Seq<(&str, &str)>) -> Seq<(Seq<char>, Seq<char>)> {
    v.map_values(|p: (&str, &str)| (p.0@, p.1@))
}

fn live_position(
    live: &[(String, String, String)],
    p: Ghost<spec_fn((Seq<char>, Seq<char>, Seq<char>)) -> bool>,
    id: &str,
    app: &str,
    title: &str,
    by_id: bool,
) -> (r: Option<usize>)
    requires
        by_id ==> p@ == with_id(id@),
        !by_id ==> p@ == with_app_title(app@, title@),
    ensures
        match r {
            Some(k) => Some(k as int) == first_index(live_views(live@), p@),
            None => first_index(live_views(live@), p@) is None,
        },
{
    let ghost all = live_views(live@);
    let mut i: usize = 0;
    while i < live.len()
        invariant
            i <= live@.len(),
            all == live_views(live@),
            by_id ==> p@ == with_id(id@),
            !by_id ==> p@ == with_app_title(app@, title@),
            forall|j: int| 0 <= j < i ==> !p@(#[trigger] all[j]),
        decreases live.len() - i,
    {
        let w = &live[i];
        let hit = if by_id {
            same_text(w.0.as_str(), id)
        } else {
            same_text(w.1.as_str(), app) && same_text(w.2.as_str(), title)
        };
        assert(all[i as int] == (w.0@, w.1@, w.2@));
        if hit {
            proof {
                lemma_first_index_is(all, p@, i as int);
            }
            return Some(i);
        }
        i += 1;
    }
    proof {
        lemma_first_index(all, p@);
    }
    None
}

impl Layout {
    /// Match a saved placement to a live window: by id, else by app and title.
    pub fn resolve<'a>(&self, live: &'a [(String, String, String)]) -> (r: Vec<(&'a str, &str)>)
        ensures
            pair_strs(r@) == resolved(self.windows@, live_views(live@)),
    {
        let ghost lv = live_views(live@);
        let mut out: Vec<(&'a str, &str)> = Vec::new();
        let mut i: usize = 0;
        while i < self.windows.len()
            invariant
                i <= self.windows@.len(),
                lv == live_views(live@),
                pair_strs(out@) == resolved(self.windows@.take(i as int), lv),
            decreases self.windows.len() - i,
        {
            let want = &self.windows[i];
            proof {
                assert(self.windows@.take(i + 1).drop_last() =~= self.windows@.take(i as int));
                assert(self.windows@.take(i + 1).last() == *want);
            }
            let mut hit = live_position(
                live,
                Ghost(with_id(want.id@)),
                want.id.as_str(),
                "",
                "",
                true,
            );
            if hit.is_none() && !(want.app.as_str().is_empty() && want.title.as_str().is_empty()) {
                hit = live_position(
                    live,
                    Ghost(with_app_title(want.app@, want.title@)),
                    "",
                    want.app.as_str(),
                    want.title.as_str(),
                    false,
                );
            }
            match hit {
                Some(k) => {
                    proof {
                        lemma_first_index(lv, with_id(want.id@));
                        lemma_first_index(lv, with_app_title(want.app@, want.title@));
                    }
                    let ghost before = out@;
                    out.push((live[k].0.as_str(), want.workspace.as_str()));
                    assert(lv[k as int].0 == live@[k as int].0@);
                    assert(pair_strs(out@) =~= pair_strs(before).push((live@[k as int].0@, want.workspace@)));
                },
                None => {},
            }
            i += 1;
        }
        assert(self.windows@.take(self.windows@.len() as int) =~= self.windows@);
        out
    }
}

// ---------------------------------------------------------------------------
// Placements read back out of the action log
// ---------------------------------------------------------------------------

/// A deliberate placement, as text: the window's app and title, and where
/// it was sent.
pub type PlacementView = ((Seq<char>, Seq<char>), Seq<char>);

/// What one log line says about where a window was put: only a move counts,
/// and only of a window that can be recognised by its app or title.
pub open spec fn placement_of(line: Seq<char>) -> Option<PlacementView> {
    placement_given(
        json_string_at(line, "/outcome"@),
        json_string_at(line, "/to"@),
        json_string_at(line, "/window/app"@),
        json_string_at(line, "/window/title"@),
    )
}

/// The placement an entry records, from what it says at `/outcome`, `/to`,
/// `/window/app` and `/window/title`: only a move places a window, and only
/// one that names where it went and something to know the window by.
pub open spec fn placement_given(
    outcome: Option<Seq<char>>,
    to: Option<Seq<char>>,
    app: Option<Seq<char>>,
    title: Option<Seq<char>>,
) -> Option<PlacementView> {
    if outcome == Some("moved"@) {
        match (to, app, title) {
            (Some(to), Some(app), Some(title)) => if app.len() == 0 && title.len() == 0 {
                None
            } else {
                Some(((app, title), to))
            },
            _ => None,
        }
    } else {
        None
    }
}

/// Whether a placement is for some other window than `key`.
pub open spec fn other_window(key: (Seq<char>, Seq<char>)) -> spec_fn(PlacementView) -> bool {
    |e: PlacementView| e.0 != key
}

/// The placements a log records, read in order: a later placement of the
/// same window replaces the earlier one and goes to the end.
pub open spec fn placements(ls: Seq<Seq<char>>) -> Seq<PlacementView>
    decreases ls.len(),
{
    if ls.len() == 0 {
        Seq::<PlacementView>::empty()
    } else {
        let earlier = placements(ls.drop_last());
        match placement_of(ls.last()) {
            Some(p) => earlier.filter(other_window(p.0)).push(p),
            None => earlier,
        }
    }
}

pub open spec fn placement_views(v: Seq<((String, String), String)>) -> Seq<PlacementView> {
    v.map_values(|e: ((String, String), String)| ((e.0.0@, e.0.1@), e.1@))
}

/// No window has two entries.
pub open spec fn one_each(v: Seq<PlacementView>) -> bool {
    forall|i: int, j: int| 0 <= i < j < v.len() ==> #[trigger] v[i].0 != #[trigger] v[j].0
}

proof fn lemma_filter_keeps_one_each(v: Seq<PlacementView>, p: spec_fn(PlacementView) -> bool)
    requires
        one_each(v),
    ensures
        one_each(v.filter(p)),
    decreases v.len(),
{
    broadcast use vstd::seq_lib::group_filter_ensures;

    if v.len() > 0 {
        let init = v.drop_last();
        assert(one_each(init)) by {
            assert forall|i: int, j: int| 0 <= i < j < init.len() implies #[trigger] init[i].0
                != #[trigger] init[j].0 by {
                assert(init[i] == v[i] && init[j] == v[j]);
            }
        }
        lemma_filter_keeps_one_each(init, p);
        init.lemma_filter_push(v.last(), p);
        assert(v =~= init.push(v.last()));
        if p(v.last()) {
            let f = init.filter(p);
            assert forall|i: int| 0 <= i < f.len() implies f[i].0 != v.last().0 by {
                assert(f.contains(f[i]));
                init.lemma_filter_contains_rev(p, f[i]);
                assert(init.contains(f[i]));
                let k = choose|k: int| 0 <= k < init.len() && init[k] == f[i];
                assert(v[k] == init[k]);
                assert(v[k].0 != v[v.len() - 1].0);
            }
            let g = f.push(v.last());
            assert forall|i: int, j: int| 0 <= i < j < g.len() implies #[trigger] g[i].0
                != #[trigger] g[j].0 by {
                if j < f.len() {
                    assert(g[i] == f[i] && g[j] == f[j]);
                } else {
                    assert(g[i] == f[i]);
                }
            }
        }
    }
}

/// Each window has at most one placement, and a line that places a window
/// leaves that placement last and alone: the last destination wins.
pub proof fn lemma_last_placement_wins(ls: Seq<Seq<char>>)
    ensures
        one_each(placements(ls)),
        ls.len() > 0 && placement_of(ls.last()) is Some ==> {
            let p = placement_of(ls.last()).unwrap();
            &&& placements(ls).last() == p
            &&& forall|i: int|
                0 <= i < placements(ls).len() - 1 ==> (#[trigger] placements(ls)[i]).0 != p.0
        },
    decreases ls.len(),
{
    broadcast use vstd::seq_lib::group_filter_ensures;

    if ls.len() > 0 {
        lemma_last_placement_wins(ls.drop_last());
        let earlier = placements(ls.drop_last());
        match placement_of(ls.last()) {
            Some(p) => {
                let f = earlier.filter(other_window(p.0));
                lemma_filter_keeps_one_each(earlier, other_window(p.0));
                let g = f.push(p);
                assert forall|i: int| 0 <= i < f.len() implies f[i].0 != p.0 by {
                    assert(other_window(p.0)(f[i]));
                }
                assert forall|i: int, j: int| 0 <= i < j < g.len() implies #[trigger] g[i].0
                    != #[trigger] g[j].0 by {
                    if j < f.len() {
                        assert(g[i] == f[i] && g[j] == f[j]);
                    } else {
                        assert(g[i] == f[i]);
                    }
                }
                assert forall|i: int| 0 <= i < g.len() - 1 implies (#[trigger] g[i]).0 != p.0 by {
                    assert(g[i] == f[i]);
                }
            },
            None => {},
        }
    }
}

/// Where windows were deliberately put, read back out of the action log.
///
/// The log is cumulative and survives a reboot, which the snapshot does not:
/// window ids are all new after one, and the automatic snapshot overwrites the
/// good layout with the scattered one as soon as anything changes. What
/// survives is the app and title of every window ever slung, and where it was
/// sent — enough to put most of them back.
///
/// The last destination wins, so a window slung twice ends where it ended up.
pub fn placements_from(text: &str) -> (r: Vec<((String, String), String)>)
    ensures
        placement_views(r@) == placements(lines(text@)),
{
    let ls = lines_exec(chars_of(text).as_slice());
    let ghost lv = lines(text@);
    let mut out: Vec<((String, String), String)> = Vec::new();
    let mut i: usize = 0;
    while i < ls.len()
        invariant
            i <= ls@.len(),
            ls@.len() == lv.len(),
            lv == lines(text@),
            forall|k: int| 0 <= k < ls@.len() ==> #[trigger] ls@[k]@ == lv[k],
            placement_views(out@) == placements(lv.take(i as int)),
        decreases ls.len() - i,
    {
        proof {
            assert(lv.take(i + 1).drop_last() =~= lv.take(i as int));
            assert(lv.take(i + 1).last() == lv[i as int]);
        }
        let line = string_of(ls[i].as_slice());
        let found = placement_in(line.as_str());
        match found {
            Some(entry) => {
                file_placement(&mut out, entry);
            },
            None => {},
        }
        i += 1;
    }
    assert(lv.take(lv.len() as int) =~= lv);
    out
}

/// One line's placement, if it records one.
fn placement_in(line: &str) -> (r: Option<((String, String), String)>)
    ensures
        match r {
            Some(e) => placement_of(line@) == Some(((e.0.0@, e.0.1@), e.1@)),
            None => placement_of(line@) is None,
        },
{
    placement_from_fields(
        string_at(line, "/outcome"),
        string_at(line, "/to"),
        string_at(line, "/window/app"),
        string_at(line, "/window/title"),
    )
}

/// The placement an entry records, given what it says at `/outcome`, `/to`,
/// `/window/app` and `/window/title`.
pub fn placement_from_fields(
    outcome: Option<String>,
    to: Option<String>,
    app: Option<String>,
    title: Option<String>,
) -> (r: Option<((String, String), String)>)
    ensures
        match r {
            Some(e) => placement_given(opt_text(outcome), opt_text(to), opt_text(app), opt_text(title))
                == Some(((e.0.0@, e.0.1@), e.1@)),
            None => placement_given(opt_text(outcome), opt_text(to), opt_text(app), opt_text(title)) is None,
        },
{
    let moved = match &outcome {
        Some(o) => same_text(o.as_str(), "moved"),
        None => false,
    };
    proof {
        reveal_strlit("moved");
    }
    if !moved {
        return None;
    }
    match (to, app, title) {
        (Some(to), Some(app), Some(title)) => {
            if app.as_str().is_empty() && title.as_str().is_empty() {
                None
            } else {
                Some(((app, title), to))
            }
        },
        _ => None,
    }
}

/// File one placement: it replaces any earlier one for the same window and
/// goes last.
pub fn file_placement(placed: &mut Vec<((String, String), String)>, entry: ((String, String), String))
    ensures
        placement_views(final(placed)@) == placement_views(old(placed)@).filter(
            other_window((entry.0.0@, entry.0.1@)),
        ).push(((entry.0.0@, entry.0.1@), entry.1@)),
{
    let kept = other_placements(placed, &entry.0);
    *placed = kept;
    let ghost before = placed@;
    placed.push(entry);
    assert(placement_views(placed@) =~= placement_views(before).push(((entry.0.0@, entry.0.1@), entry.1@)));
}

/// The entries for every other window than `key`.
fn other_placements(v: &Vec<((String, String), String)>, key: &(String, String)) -> (r: Vec<
    ((String, String), String),
>)
    ensures
        placement_views(r@) == placement_views(v@).filter(other_window((key.0@, key.1@))),
{
    let ghost all = placement_views(v@);
    let ghost keep = other_window((key.0@, key.1@));
    let mut r: Vec<((String, String), String)> = Vec::new();
    let mut i: usize = 0;
    while i < v.len()
        invariant
            i <= v@.len(),
            all == placement_views(v@),
            keep == other_window((key.0@, key.1@)),
            placement_views(r@) == all.take(i as int).filter(keep),
        decreases v.len() - i,
    {
        proof {
            assert(all.take(i + 1) =~= all.take(i as int).push(all[i as int]));
            all.take(i as int).lemma_filter_push(all[i as int], keep);
        }
        let e = &v[i];
        let same = same_text(e.0.0.as_str(), key.0.as_str()) && same_text(
            e.0.1.as_str(),
            key.1.as_str(),
        );
        if !same {
            let ghost before = placement_views(r@);
            r.push(((copy_text(&e.0.0), copy_text(&e.0.1)), copy_text(&e.1)));
            assert(placement_views(r@) =~= before.push(all[i as int]));
        }
        i += 1;
    }
    assert(all.take(all.len() as int) =~= all);
    r
}

} // verus!
