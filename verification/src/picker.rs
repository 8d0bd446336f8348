//! Building the sling menu, and the naming rules for workspaces.
//!
//! Everything here is pure — no window manager, no dialogs, no clock — so the
//! part with the fiddly rules in it is stated and proved rather than hoped.
use vstd::prelude::*;

use vstd::relations::{sorted_by, total_ordering};

use crate::names::{lemma_strictly_sorted_unique, strictly_sorted, NameMap};
use crate::text::{
    lemma_insert_sorted_by, lemma_text_lt_asym, lemma_text_lt_total, lemma_text_lt_trans,
    less_text, occurrences, occurrences_exec, sort_texts, sorted_texts, text_le, text_lt, views,
    append_chars, chars_of, concat_chars, copy_text, ends_with, has_char_exec, is_alnum, is_char,
    is_whitespace, rsplit_once, rsplit_once_exec, same_chars, same_text, slice_of, split_once_char,
    split_once_char_exec, splitn, splitn_exec, starts_with, starts_with_chars, string_of, owned,
    decimal, decimal_chars,
    strip_prefix, strip_prefix_exec, trim, trim_by, trim_char, trim_chars, trim_end, trim_start,
    trim_end_chars,
};

verus! {

pub const NEW: &'static str = "＋  new workspace…";

/// Mode ids. The labels live with the tabs that carry them.
pub const TO_MANY: &'static str = "__many__";

pub const TO_ONE: &'static str = "__once__";

pub const TO_JUMP: &'static str = "__jump__";

pub const TO_BOARD: &'static str = "__board__";

pub const ONCE_LABEL: &'static str = "sling once";

pub const MANY_LABEL: &'static str = "sling many";

pub const JUMP_LABEL: &'static str = "jump to";

pub const BOARD_LABEL: &'static str = "board";

/// Every mode id, in the order they are drawn.
///
/// One list, because the tab strip and the flows that read a chosen tab back
/// must agree about what a tab *is*: a mode is a question asked of this list.
pub const MODES: [&'static str; 4] = [TO_ONE, TO_MANY, TO_JUMP, TO_BOARD];

/// What the board sends back when a window is dragged onto a task rather
/// than chosen: `__sling__:<window id>:<task>`.
pub const SLING: &'static str = "__sling__:";

/// Not a workspace — a standing instruction to bring a window along.
pub const ALL: &'static str = "∞  all workspaces";

/// The same, for every window the application has.
pub const ALL_APP: &'static str = "__all_app__";

/// Applications that belong everywhere without being asked.
///
/// Finder opens and closes windows all day, so a window id does not survive
/// it; and activating it from the Dock focuses whichever window it already
/// has, which drags you to that window's task. Being everywhere by nature
/// removes the reason focus leaves.
pub const GLOBAL_BY_NATURE: [&'static str; 1] = ["com.apple.finder"];

/// What the panel sends back when a row is pinned or unpinned.
pub const PIN: &'static str = "__pin__:";

/// A task named in the search box rather than in a second dialog.
pub const NEW_NAMED: &'static str = "__new__:";

pub const SEP: &'static str = "──────";

/// Marks the row for the workspace the window is in now.
pub const HERE: &'static str = "●";

/// How many icons stand in for a workspace on its row.
pub const STACK_MAX: usize = 5;

// ---------------------------------------------------------------------------
// Modes, drags, and standing instructions
// ---------------------------------------------------------------------------

pub open spec fn is_mode_text(c: Seq<char>) -> bool {
    c == TO_ONE@ || c == TO_MANY@ || c == TO_JUMP@ || c == TO_BOARD@
}

/// Whether a chosen row names a mode rather than a destination.
pub fn is_mode(choice: &str) -> (r: bool)
    ensures
        r == is_mode_text(choice@),
{
    same_text(choice, TO_ONE) || same_text(choice, TO_MANY) || same_text(choice, TO_JUMP)
        || same_text(choice, TO_BOARD)
}

/// The window and task a dragged sling names, when both are there.
pub open spec fn sling_parts_of(choice: Seq<char>) -> Option<(Seq<char>, Seq<char>)> {
    match strip_prefix(choice, SLING@) {
        Some(rest) => match split_once_char(rest, ':') {
            Some((window, workspace)) => if window.len() > 0 && workspace.len() > 0 {
                Some((window, workspace))
            } else {
                None
            },
            None => None,
        },
        None => None,
    }
}

/// Read a dragged sling back into the window and where it was dropped.
pub fn sling_parts(choice: &str) -> (r: Option<(String, String)>)
    ensures
        match r {
            Some((w, t)) => sling_parts_of(choice@) == Some((w@, t@)),
            None => sling_parts_of(choice@) is None,
        },
{
    let c = chars_of(choice);
    let prefix = chars_of(SLING);
    let rest = match strip_prefix_exec(c.as_slice(), prefix.as_slice()) {
        Some(rest) => rest,
        None => return None,
    };
    match split_once_char_exec(rest.as_slice(), ':') {
        Some((window, workspace)) => {
            if window.len() > 0 && workspace.len() > 0 {
                Some((string_of(window.as_slice()), string_of(workspace.as_slice())))
            } else {
                None
            }
        },
        None => None,
    }
}

pub open spec fn global_by_nature(bundle: Seq<char>) -> bool {
    bundle.len() > 0 && bundle == GLOBAL_BY_NATURE[0]@
}

/// Whether an application follows you without ever having been added to
/// the follow list.
pub fn is_global_by_nature(bundle: &str) -> (r: bool)
    ensures
        r == global_by_nature(bundle@),
{
    let b = chars_of(bundle);
    b.len() > 0 && same_text(bundle, GLOBAL_BY_NATURE[0])
}

pub open spec fn all_row_text(following: bool) -> Seq<char> {
    if following {
        ALL@ + "  (following — pick to stop)"@
    } else {
        ALL@ + "  (bring along to every task)"@
    }
}

/// The label of the "all workspaces" row.
pub fn all_row(following: bool) -> (r: String)
    ensures
        r@ == all_row_text(following),
{
    let head = chars_of(ALL);
    let tail = if following {
        chars_of("  (following — pick to stop)")
    } else {
        chars_of("  (bring along to every task)")
    };
    string_of(concat_chars(head.as_slice(), tail.as_slice()).as_slice())
}

// ---------------------------------------------------------------------------
// Windows
// ---------------------------------------------------------------------------

#[derive(Debug, Clone, PartialEq, Eq)]
pub struct Window {
    pub id: String,
    pub workspace: String,
    /// Which screen it is on. A window that belongs everywhere belongs
    /// everywhere *on its own screen*.
    pub monitor: String,
    pub app: String,
    pub title: String,
    /// Bundle id, so a front end can show the application's icon.
    pub bundle: String,
}

impl Window {
    /// The same window.
    pub fn duplicate(&self) -> (w: Window)
        ensures
            w == *self,
    {
        Window {
            id: self.id.clone(),
            workspace: self.workspace.clone(),
            monitor: self.monitor.clone(),
            app: self.app.clone(),
            title: self.title.clone(),
            bundle: self.bundle.clone(),
        }
    }

    pub open spec fn label_text(&self) -> Seq<char> {
        if self.title@.len() == 0 {
            self.app@
        } else {
            self.app@ + " — "@ + self.title@
        }
    }

    /// How the window is described at the top of the dialog.
    pub fn label(&self) -> (r: String)
        ensures
            r@ == self.label_text(),
    {
        let title = chars_of(self.title.as_str());
        if title.len() == 0 {
            copy_text(&self.app)
        } else {
            let app = chars_of(self.app.as_str());
            let dash = chars_of(" — ");
            let mut out = concat_chars(app.as_slice(), dash.as_slice());
            append_chars(&mut out, title.as_slice());
            string_of(out.as_slice())
        }
    }
}

/// The `k`th field of a window row, trimmed, or nothing when the row is
/// shorter than that.
pub open spec fn field(parts: Seq<Seq<char>>, k: int) -> Seq<char> {
    if k < parts.len() {
        trim(parts[k])
    } else {
        Seq::<char>::empty()
    }
}

/// The row a line describes: `None` for a blank line, a line whose id is
/// blank, or one with no workspace field at all.
pub open spec fn reads_as_window(line: Seq<char>) -> bool {
    let parts = splitn(line, 6, '|');
    trim(line).len() > 0 && trim(parts[0]).len() > 0 && parts.len() >= 2
}

/// A window as AeroSpace lists it: its fields joined by `|`, title last.
pub open spec fn window_line(w: Window) -> Seq<char> {
    let bar = seq!['|'];
    w.id@ + bar + (w.workspace@ + bar + (w.monitor@ + bar + (w.app@ + bar + (w.bundle@ + bar
        + w.title@))))
}

/// A field as the listing writes it: holding no `|` and no whitespace at
/// either end.
pub open spec fn listed_field(f: Seq<char>) -> bool {
    !f.contains('|') && trim(f) == f
}

/// A window written the way AeroSpace lists it reads back as that window,
/// whatever its title holds: only the first five separators count.
pub proof fn lemma_window_line_reads_back(w: Window)
    requires
        w.id@.len() > 0,
        listed_field(w.id@),
        listed_field(w.workspace@),
        listed_field(w.monitor@),
        listed_field(w.app@),
        listed_field(w.bundle@),
        trim(w.title@) == w.title@,
    ensures
        reads_as_window(window_line(w)),
        ({
            let parts = splitn(window_line(w), 6, '|');
            &&& field(parts, 0) == w.id@
            &&& field(parts, 1) == w.workspace@
            &&& field(parts, 2) == w.monitor@
            &&& field(parts, 3) == w.app@
            &&& field(parts, 4) == w.bundle@
            &&& field(parts, 5) == w.title@
        }),
{
    let bar = seq!['|'];
    let r4 = w.bundle@ + bar + w.title@;
    let r3 = w.app@ + bar + r4;
    let r2 = w.monitor@ + bar + r3;
    let r1 = w.workspace@ + bar + r2;
    let line = w.id@ + bar + r1;
    assert(line == window_line(w));
    crate::text::lemma_splitn_at(w.id@, r1, 6, '|');
    crate::text::lemma_splitn_at(w.workspace@, r2, 5, '|');
    crate::text::lemma_splitn_at(w.monitor@, r3, 4, '|');
    crate::text::lemma_splitn_at(w.app@, r4, 3, '|');
    crate::text::lemma_splitn_at(w.bundle@, w.title@, 2, '|');
    let parts = splitn(line, 6, '|');
    assert(parts =~= seq![w.id@, w.workspace@, w.monitor@, w.app@, w.bundle@, w.title@]);
    // The line starts where its id does, so it is not blank.
    let id = w.id@;
    crate::text::lemma_lead_bounded(id, crate::text::ws());
    crate::text::lemma_trail_bounded(id.skip(crate::text::lead(id, crate::text::ws()) as int), crate::text::ws());
    assert(!crate::text::is_ws(id[0]));
    assert(line[0] == id[0]);
    crate::text::lemma_lead_is(line, crate::text::ws(), 0);
    assert(trim_start(line) =~= line);
    crate::text::lemma_trail_bounded(line, crate::text::ws());
    if crate::text::trail(line, crate::text::ws()) == line.len() {
        assert(crate::text::is_ws(line[0]));
    }
}

fn field_exec(parts: &Vec<Vec<char>>, k: usize) -> (r: String)
    ensures
        r@ == (if k < parts@.len() {
            trim(parts@[k as int]@)
        } else {
            Seq::<char>::empty()
        }),
{
    if k < parts.len() {
        string_of(trim_chars(parts[k].as_slice()).as_slice())
    } else {
        String::new()
    }
}

/// Read one
/// `%{window-id}|%{workspace}|%{monitor-id}|%{app-name}|%{app-bundle-id}|%{window-title}`
/// row.
///
/// Titles contain `|` often enough to matter, so only the first five
/// separators are significant and the title keeps whatever it holds.
pub fn parse_window(line: &str) -> (r: Option<Window>)
    ensures
        r is Some <==> reads_as_window(line@),
        r matches Some(w) ==> {
            let parts = splitn(line@, 6, '|');
            &&& w.id@ == field(parts, 0)
            &&& w.workspace@ == field(parts, 1)
            &&& w.monitor@ == field(parts, 2)
            &&& w.app@ == field(parts, 3)
            &&& w.bundle@ == field(parts, 4)
            &&& w.title@ == field(parts, 5)
        },
{
    let text = chars_of(line);
    if trim_chars(text.as_slice()).len() == 0 {
        return None;
    }
    let parts = splitn_exec(text.as_slice(), 6, '|');
    proof {
        reveal_with_fuel(splitn, 2);
        assert(splitn(line@, 6, '|').len() >= 1);
    }
    let id = field_exec(&parts, 0);
    if id.as_str().is_empty() {
        return None;
    }
    if parts.len() < 2 {
        return None;
    }
    Some(
        Window {
            id,
            workspace: field_exec(&parts, 1),
            monitor: field_exec(&parts, 2),
            app: field_exec(&parts, 3),
            bundle: field_exec(&parts, 4),
            title: field_exec(&parts, 5),
        },
    )
}

// ---------------------------------------------------------------------------
// Naming
// ---------------------------------------------------------------------------

/// Characters a workspace name may hold: `[A-Za-z0-9._-]`.
pub open spec fn legal_char(c: char) -> bool {
    is_alnum(c) || c == '.' || c == '_' || c == '-'
}

/// The walk over a trimmed name: legal characters are kept, and each run of
/// anything else becomes one `-` unless a `-` was just written. Also says
/// whether the last character written was a `-`.
pub open spec fn sanitise_walk(s: Seq<char>) -> (Seq<char>, bool)
    decreases s.len(),
{
    if s.len() == 0 {
        (Seq::<char>::empty(), false)
    } else {
        let (out, prev_dash) = sanitise_walk(s.drop_last());
        let ch = s.last();
        if legal_char(ch) {
            (out.push(ch), ch == '-')
        } else if !prev_dash {
            (out.push('-'), true)
        } else {
            (out, prev_dash)
        }
    }
}

/// What `sanitise_workspace` makes of a typed name.
pub open spec fn sanitised(raw: Seq<char>) -> Seq<char> {
    trim_by(sanitise_walk(trim(raw)).0, is_char('-'))
}

/// A name AeroSpace accepts as it is: only legal characters, and no `-` at
/// either end.
pub open spec fn is_clean_name(s: Seq<char>) -> bool {
    &&& forall|k: int| 0 <= k < s.len() ==> legal_char(#[trigger] s[k])
    &&& (s.len() > 0 ==> s[0] != '-' && s.last() != '-')
}

proof fn lemma_walk_legal(s: Seq<char>)
    ensures
        forall|k: int|
            0 <= k < sanitise_walk(s).0.len() ==> legal_char(#[trigger] sanitise_walk(s).0[k]),
        sanitise_walk(s).1 == (sanitise_walk(s).0.len() > 0 && sanitise_walk(s).0.last() == '-'),
    decreases s.len(),
{
    if s.len() > 0 {
        lemma_walk_legal(s.drop_last());
    }
}

proof fn lemma_walk_of_legal(s: Seq<char>)
    requires
        forall|k: int| 0 <= k < s.len() ==> legal_char(#[trigger] s[k]),
    ensures
        sanitise_walk(s).0 == s,
    decreases s.len(),
{
    if s.len() > 0 {
        assert forall|k: int| 0 <= k < s.drop_last().len() implies legal_char(
            #[trigger] s.drop_last()[k],
        ) by {
            assert(s.drop_last()[k] == s[k]);
        }
        lemma_walk_of_legal(s.drop_last());
        assert(legal_char(s.last()));
        assert(s.drop_last().push(s.last()) =~= s);
    }
}

proof fn lemma_trim_nothing(s: Seq<char>, p: spec_fn(char) -> bool)
    requires
        s.len() > 0 ==> !p(s[0]) && !p(s.last()),
    ensures
        trim_by(s, p) == s,
{
    crate::text::lemma_lead_is(s, p, 0);
    assert(s.skip(0) =~= s);
    if s.len() > 0 {
        crate::text::lemma_trail_is(s, p, s.len() as int);
    } else {
        crate::text::lemma_trail_is(s, p, 0);
    }
    assert(s.take(s.len() as int) =~= s);
}

/// Whatever is typed, the name that comes out is one AeroSpace accepts: only
/// `[A-Za-z0-9._-]`, and no `-` at either end.
pub proof fn lemma_sanitised_is_clean(raw: Seq<char>)
    ensures
        is_clean_name(sanitised(raw)),
{
    let w = sanitise_walk(trim(raw)).0;
    lemma_walk_legal(trim(raw));
    crate::text::lemma_lead_bounded(w, is_char('-'));
    let t = w.skip(crate::text::lead(w, is_char('-')) as int);
    crate::text::lemma_trail_bounded(t, is_char('-'));
    let r = sanitised(raw);
    assert forall|k: int| 0 <= k < r.len() implies legal_char(#[trigger] r[k]) by {
        assert(r[k] == w[k + crate::text::lead(w, is_char('-'))]);
    }
    if r.len() > 0 {
        assert(r[0] == t[0]);
        assert(r.last() == t[t.len() - crate::text::trail(t, is_char('-')) - 1]);
    }
}

/// A name that is already clean is left exactly as it is.
pub proof fn lemma_clean_name_unchanged(s: Seq<char>)
    requires
        is_clean_name(s),
    ensures
        sanitised(s) == s,
{
    assert(s.len() > 0 ==> !crate::text::is_ws(s[0]) && !crate::text::is_ws(s.last()));
    lemma_trim_nothing(s, crate::text::ws());
    lemma_walk_of_legal(s);
    lemma_trim_nothing(s, is_char('-'));
}

/// Sanitising twice changes nothing the second time.
pub proof fn lemma_sanitise_idempotent(raw: Seq<char>)
    ensures
        sanitised(sanitised(raw)) == sanitised(raw),
{
    lemma_sanitised_is_clean(raw);
    lemma_clean_name_unchanged(sanitised(raw));
}

fn is_legal_exec(c: char) -> (r: bool)
    ensures
        r == legal_char(c),
{
    ('0' <= c && c <= '9') || ('a' <= c && c <= 'z') || ('A' <= c && c <= 'Z') || c == '.' || c
        == '_' || c == '-'
}

/// Coerce a typed name into something AeroSpace will accept.
///
/// A `/` in a workspace name hangs AeroSpace on a modal dialog it never shows.
/// Tasks are named after herdr tabs (`t/forms`), so that slash arrives by
/// reflex — translate it rather than reject it.
pub fn sanitise_workspace(raw: &str) -> (r: String)
    ensures
        r@ == sanitised(raw@),
{
    let text = chars_of(raw);
    let trimmed = trim_chars(text.as_slice());
    let mut out: Vec<char> = Vec::new();
    let mut prev_dash = false;
    let mut i: usize = 0;
    while i < trimmed.len()
        invariant
            i <= trimmed@.len(),
            (out@, prev_dash) == sanitise_walk(trimmed@.take(i as int)),
        decreases trimmed.len() - i,
    {
        let ch = trimmed[i];
        proof {
            assert(trimmed@.take(i + 1).drop_last() =~= trimmed@.take(i as int));
        }
        if is_legal_exec(ch) {
            out.push(ch);
            prev_dash = ch == '-';
        } else if !prev_dash {
            out.push('-');
            prev_dash = true;
        }
        i += 1;
    }
    proof {
        assert(trimmed@.take(trimmed@.len() as int) =~= trimmed@);
    }
    string_of(trim_char(out.as_slice(), '-').as_slice())
}

// ---------------------------------------------------------------------------
// Titles
// ---------------------------------------------------------------------------

/// ` - ` before the browser's name; Chromium's separator.
pub open spec fn hyphen_sep() -> Seq<char> {
    " - "@
}

/// ` – ` before the profile: an en dash, which is what keeps an em dash in a
/// document's own title from matching.
pub open spec fn en_dash_sep() -> Seq<char> {
    seq![' ', '\u{2013}', ' ']
}

pub open spec fn memory_sep() -> Seq<char> {
    " - High memory usage - "@
}

/// `… - Brave – justin@example.com` → `…`, only when the name before the
/// profile is the start of the application's own name.
pub open spec fn without_browser_suffix(app: Seq<char>, title: Seq<char>) -> Seq<char> {
    match rsplit_once(title, en_dash_sep()) {
        Some((before_profile, _)) => match rsplit_once(before_profile, hyphen_sep()) {
            Some((tab, browser)) => if browser.len() == 0 || !starts_with(app, browser) {
                title
            } else {
                tab
            },
            None => title,
        },
        None => title,
    }
}

/// `My Tasks - High memory usage - 1.4 GB` → `My Tasks`.
pub open spec fn without_memory_note(title: Seq<char>) -> Seq<char> {
    match rsplit_once(title, memory_sep()) {
        Some((before, size)) => if size.len() > 0 && size.last() == 'B' {
            before
        } else {
            title
        },
        None => title,
    }
}

/// The tab's own title, with the browser's furniture taken off the end; never
/// stripped down to nothing.
pub open spec fn tab_title_text(app: Seq<char>, title: Seq<char>) -> Seq<char> {
    let trimmed = trim(without_memory_note(without_browser_suffix(app, title)));
    if trimmed.len() == 0 {
        trim(title)
    } else {
        trimmed
    }
}

fn strip_browser_suffix(app: &[char], title: &[char]) -> (r: Vec<char>)
    ensures
        r@ == without_browser_suffix(app@, title@),
{
    let en = ['\u{20}', '\u{2013}', '\u{20}'];
    assert(en@ =~= en_dash_sep());
    let before_profile = match rsplit_once_exec(title, &en) {
        Some((b, _)) => b,
        None => return slice_of(title, 0, title.len()),
    };
    let hy = chars_of(" - ");
    match rsplit_once_exec(before_profile.as_slice(), hy.as_slice()) {
        Some((tab, browser)) => {
            if browser.len() == 0 || !starts_with_chars(app, browser.as_slice()) {
                slice_of(title, 0, title.len())
            } else {
                tab
            }
        },
        None => slice_of(title, 0, title.len()),
    }
}

fn strip_memory_note(title: &[char]) -> (r: Vec<char>)
    ensures
        r@ == without_memory_note(title@),
{
    let sep = chars_of(" - High memory usage - ");
    match rsplit_once_exec(title, sep.as_slice()) {
        Some((before, size)) => {
            if size.len() > 0 && size[size.len() - 1] == 'B' {
                before
            } else {
                slice_of(title, 0, title.len())
            }
        },
        None => slice_of(title, 0, title.len()),
    }
}

/// The tab's own title, with the browser's furniture taken off the end.
///
/// Chromium writes `<tab title> - <Browser> – <profile>` into the window
/// title, so every browser row would end with the same thirty characters.
/// Only removed when the name in the suffix is the application's own, so a
/// page genuinely called "Something - Else – Other" keeps its title.
pub fn tab_title(app: &str, title: &str) -> (r: String)
    ensures
        r@ == tab_title_text(app@, title@),
{
    let a = chars_of(app);
    let t = chars_of(title);
    let stripped = strip_memory_note(strip_browser_suffix(a.as_slice(), t.as_slice()).as_slice());
    let trimmed = trim_chars(stripped.as_slice());
    if trimmed.len() == 0 {
        string_of(trim_chars(t.as_slice()).as_slice())
    } else {
        string_of(trimmed.as_slice())
    }
}

/// A title cut to `limit` characters, on a character boundary, with an
/// ellipsis where it was cut.
pub open spec fn shortened(text: Seq<char>, limit: nat) -> Seq<char> {
    if text.len() <= limit {
        text
    } else {
        let keep: nat = if limit >= 1 {
            (limit - 1) as nat
        } else {
            0
        };
        trim_end(text.take(keep as int)).push('\u{2026}')
    }
}

/// A shortened label fits its limit: unchanged when it already fits, and
/// otherwise a start of the text, with an ellipsis to say so.
pub proof fn lemma_shortened_fits(text: Seq<char>, limit: nat)
    requires
        limit >= 1,
    ensures
        text.len() <= limit ==> shortened(text, limit) == text,
        text.len() > limit ==> {
            let r = shortened(text, limit);
            &&& r.len() <= limit
            &&& r.last() == '\u{2026}'
            &&& r.drop_last().len() <= text.len()
            &&& r.drop_last() == text.take(r.drop_last().len() as int)
        },
{
    if text.len() > limit {
        let keep = (limit - 1) as int;
        let t = text.take(keep);
        crate::text::lemma_trail_bounded(t, crate::text::ws());
        let kept = trim_end(t);
        assert(kept == t.take(t.len() - crate::text::trail(t, crate::text::ws())));
        let r = shortened(text, limit);
        assert(r == kept.push('\u{2026}'));
        assert(r.drop_last() =~= kept);
        assert(kept =~= text.take(kept.len() as int));
    }
}

pub fn shorten_chars(text: &[char], limit: usize) -> (r: Vec<char>)
    ensures
        r@ == shortened(text@, limit as nat),
{
    if text.len() <= limit {
        return slice_of(text, 0, text.len());
    }
    let keep = if limit >= 1 {
        limit - 1
    } else {
        0
    };
    let mut out = trim_end_chars(slice_of(text, 0, keep).as_slice());
    out.push('\u{2026}');
    out
}

/// Shorten a title to keep the dialog a sane width, on a character boundary.
pub fn shorten_label(text: &str, limit: usize) -> (r: String)
    ensures
        r@ == shortened(text@, limit as nat),
{
    let t = chars_of(text);
    string_of(shorten_chars(t.as_slice(), limit).as_slice())
}


// ---------------------------------------------------------------------------
// What a workspace holds
// ---------------------------------------------------------------------------

/// What a workspace holds: how many windows, and which applications they
/// belong to, in the order their icons should be drawn.
#[derive(Debug, Clone, Default, PartialEq, Eq)]
pub struct Occupancy {
    pub count: usize,
    /// Bundle ids, already ordered and capped.
    pub stack: Vec<String>,
}

/// `(workspace, bundle)` pairs as text.
pub open spec fn pair_views(ps: Seq<(String, String)>) -> Seq<(Seq<char>, Seq<char>)> {
    ps.map_values(|p: (String, String)| (p.0@, p.1@))
}

/// How many windows a workspace holds.
pub open spec fn windows_in(ps: Seq<(Seq<char>, Seq<char>)>, ws: Seq<char>) -> nat
    decreases ps.len(),
{
    if ps.len() == 0 {
        0
    } else {
        windows_in(ps.drop_last(), ws) + if ps.last().0 == ws {
            1nat
        } else {
            0nat
        }
    }
}

/// The bundle ids of a workspace's windows, in the order they came, leaving
/// out windows with no bundle id.
pub open spec fn bundles_in(ps: Seq<(Seq<char>, Seq<char>)>, ws: Seq<char>) -> Seq<Seq<char>>
    decreases ps.len(),
{
    if ps.len() == 0 {
        Seq::<Seq<char>>::empty()
    } else {
        let rest = bundles_in(ps.drop_last(), ws);
        if ps.last().0 == ws && ps.last().1.len() > 0 {
            rest.push(ps.last().1)
        } else {
            rest
        }
    }
}

/// Rarest application first, ties broken on the bundle id.
pub open spec fn rarity_leq(b: Seq<Seq<char>>) -> spec_fn(Seq<char>, Seq<char>) -> bool {
    |x: Seq<char>, y: Seq<char>|
        occurrences(b, x) < occurrences(b, y) || (occurrences(b, x) == occurrences(b, y)
            && text_le(x, y))
}

/// The icon stack for a workspace holding these bundles: every window's
/// application, rarest first, capped at `STACK_MAX`.
pub open spec fn stack_of(bundles: Seq<Seq<char>>) -> Seq<Seq<char>> {
    let sorted = bundles.sort_by(rarity_leq(bundles));
    if sorted.len() <= STACK_MAX {
        sorted
    } else {
        sorted.take(STACK_MAX as int)
    }
}

pub proof fn lemma_rarity_order(b: Seq<Seq<char>>)
    ensures
        total_ordering(rarity_leq(b)),
{
    let leq = rarity_leq(b);
    assert forall|x: Seq<char>| #[trigger] leq(x, x) by {}
    assert forall|x: Seq<char>, y: Seq<char>| #[trigger] leq(x, y) && #[trigger] leq(y, x) implies x
        == y by {
        lemma_text_lt_asym(x, y);
    }
    assert forall|x: Seq<char>, y: Seq<char>, z: Seq<char>|
        #[trigger] leq(x, y) && #[trigger] leq(y, z) implies leq(x, z) by {
        if x != y && y != z && occurrences(b, x) == occurrences(b, y) && occurrences(b, y)
            == occurrences(b, z) {
            lemma_text_lt_trans(x, y, z);
        }
    }
    assert forall|x: Seq<char>, y: Seq<char>| #[trigger] leq(x, y) || #[trigger] leq(y, x) by {
        lemma_text_lt_total(x, y);
    }
}

proof fn lemma_occurrences_count(b: Seq<Seq<char>>, x: Seq<char>)
    ensures
        occurrences(b, x) == b.to_multiset().count(x),
    decreases b.len(),
{
    broadcast use vstd::multiset::group_multiset_axioms;

    if b.len() > 0 {
        let init = b.drop_last();
        lemma_occurrences_count(init, x);
        init.to_multiset_ensures();
        assert(b == init.push(b.last()));
    } else {
        b.to_multiset_ensures();
    }
}

proof fn lemma_bundles_count(ps: Seq<(Seq<char>, Seq<char>)>, ws: Seq<char>, x: Seq<char>)
    ensures
        bundles_in(ps, ws).to_multiset().count(x) == if x.len() > 0 {
            ps.to_multiset().count((ws, x))
        } else {
            0
        },
    decreases ps.len(),
{
    broadcast use vstd::multiset::group_multiset_axioms;

    if ps.len() > 0 {
        let init = ps.drop_last();
        lemma_bundles_count(init, ws, x);
        init.to_multiset_ensures();
        bundles_in(init, ws).to_multiset_ensures();
        assert(ps == init.push(ps.last()));
    } else {
        ps.to_multiset_ensures();
        bundles_in(ps, ws).to_multiset_ensures();
    }
}

/// Multiplicity is kept: the stack has an icon for every window with a
/// bundle id, up to the cap.
pub proof fn lemma_stack_len(bundles: Seq<Seq<char>>)
    ensures
        stack_of(bundles).len() == if bundles.len() <= STACK_MAX {
            bundles.len()
        } else {
            STACK_MAX as nat
        },
{
    let leq = rarity_leq(bundles);
    lemma_rarity_order(bundles);
    bundles.lemma_sort_by_ensures(leq);
    vstd::seq_lib::to_multiset_len(bundles);
    vstd::seq_lib::to_multiset_len(bundles.sort_by(leq));
}

/// Rarest application first: an application is left off a workspace's stack
/// only when the stack is full, and full of applications no more common
/// there than it is.
pub proof fn lemma_rarest_first(bundles: Seq<Seq<char>>, b: Seq<char>)
    requires
        bundles.contains(b),
        !stack_of(bundles).contains(b),
    ensures
        stack_of(bundles).len() == STACK_MAX,
        forall|i: int|
            0 <= i < STACK_MAX ==> occurrences(bundles, #[trigger] stack_of(bundles)[i])
                <= occurrences(bundles, b),
{
    broadcast use vstd::multiset::group_multiset_axioms;

    let leq = rarity_leq(bundles);
    let sorted = bundles.sort_by(leq);
    lemma_rarity_order(bundles);
    bundles.lemma_sort_by_ensures(leq);
    // The sorted list holds the same bundles, so `b` is in it somewhere.
    bundles.to_multiset_ensures();
    sorted.to_multiset_ensures();
    assert(bundles.to_multiset().count(b) > 0);
    assert(sorted.contains(b));
    let j = choose|j: int| 0 <= j < sorted.len() && sorted[j] == b;
    // Since the stack leaves it out, it sits past the cap.
    assert(sorted.len() > STACK_MAX) by {
        if sorted.len() <= STACK_MAX {
            assert(stack_of(bundles) == sorted);
        }
    }
    assert(stack_of(bundles) == sorted.take(STACK_MAX as int));
    assert(j >= STACK_MAX) by {
        if j < STACK_MAX {
            assert(stack_of(bundles)[j] == b);
        }
    }
    assert forall|i: int| 0 <= i < STACK_MAX implies occurrences(
        bundles,
        #[trigger] stack_of(bundles)[i],
    ) <= occurrences(bundles, b) by {
        assert(stack_of(bundles)[i] == sorted[i]);
        assert(leq(sorted[i], sorted[j]));
    }
}

/// Ties break on the bundle id, so the same workspace draws the same stack
/// every time: the stack depends on which windows a workspace holds, never
/// on the order they were listed in.
pub proof fn lemma_stack_ignores_order(
    ps1: Seq<(Seq<char>, Seq<char>)>,
    ps2: Seq<(Seq<char>, Seq<char>)>,
    ws: Seq<char>,
)
    requires
        ps1.to_multiset() == ps2.to_multiset(),
    ensures
        stack_of(bundles_in(ps1, ws)) == stack_of(bundles_in(ps2, ws)),
{
    broadcast use vstd::multiset::group_multiset_axioms;

    let b1 = bundles_in(ps1, ws);
    let b2 = bundles_in(ps2, ws);
    assert forall|x: Seq<char>| b1.to_multiset().count(x) == b2.to_multiset().count(x) by {
        lemma_bundles_count(ps1, ws, x);
        lemma_bundles_count(ps2, ws, x);
    }
    assert(b1.to_multiset() =~= b2.to_multiset());
    assert forall|x: Seq<char>| occurrences(b1, x) == occurrences(b2, x) by {
        lemma_occurrences_count(b1, x);
        lemma_occurrences_count(b2, x);
    }
    let leq = rarity_leq(b1);
    assert(rarity_leq(b2) =~= leq);
    lemma_rarity_order(b1);
    b1.lemma_sort_by_ensures(leq);
    b2.lemma_sort_by_ensures(leq);
    vstd::seq_lib::lemma_sorted_unique(b1.sort_by(leq), b2.sort_by(leq), leq);
}

fn rarity_le(b: &Vec<String>, x: &String, y: &String) -> (r: bool)
    ensures
        r == (rarity_leq(views(b@)))(x@, y@),
{
    let nx = occurrences_exec(b, x.as_str());
    let ny = occurrences_exec(b, y.as_str());
    nx < ny || (nx == ny && (same_text(x.as_str(), y.as_str()) || less_text(
        x.as_str(),
        y.as_str(),
    )))
}

/// The icon stack for a workspace holding these bundles.
pub fn stack_from(bundles: &Vec<String>) -> (r: Vec<String>)
    ensures
        views(r@) == stack_of(views(bundles@)),
{
    let ghost b = views(bundles@);
    let ghost leq = rarity_leq(b);
    proof {
        lemma_rarity_order(b);
    }
    let mut r: Vec<String> = Vec::new();
    let mut i: usize = 0;
    assert(views(r@) =~= views(bundles@.take(0)));
    while i < bundles.len()
        invariant
            i <= bundles@.len(),
            b == views(bundles@),
            leq == rarity_leq(b),
            total_ordering(leq),
            sorted_by(views(r@), leq),
            views(r@).to_multiset() == views(bundles@.take(i as int)).to_multiset(),
        decreases bundles.len() - i,
    {
        let x = copy_text(&bundles[i]);
        let mut j: usize = 0;
        while j < r.len() && rarity_le(bundles, &r[j], &x)
            invariant
                j <= r@.len(),
                b == views(bundles@),
                leq == rarity_leq(b),
                forall|k: int| 0 <= k < j ==> #[trigger] leq(views(r@)[k], x@),
            decreases r.len() - j,
        {
            j += 1;
        }
        proof {
            lemma_insert_sorted_by(views(r@), x@, j as int, leq);
            assert(views(r@.insert(j as int, x)) =~= views(r@).insert(j as int, x@));
            assert(views(bundles@.take(i + 1)) =~= views(bundles@.take(i as int)).push(x@));
            vstd::seq_lib::to_multiset_insert(views(r@), j as int, x@);
            vstd::seq_lib::to_multiset_build(views(bundles@.take(i as int)), x@);
        }
        r.insert(j, x);
        i += 1;
    }
    proof {
        assert(bundles@.take(bundles@.len() as int) =~= bundles@);
        b.lemma_sort_by_ensures(leq);
        vstd::seq_lib::lemma_sorted_unique(views(r@), b.sort_by(leq), leq);
    }
    let mut out: Vec<String> = Vec::new();
    let mut k: usize = 0;
    while k < r.len() && k < STACK_MAX
        invariant
            k <= r@.len(),
            k <= STACK_MAX,
            views(out@) == views(r@).take(k as int),
        decreases r.len() - k,
    {
        let ghost before = out@;
        out.push(copy_text(&r[k]));
        assert(views(out@) =~= views(before).push(r@[k as int]@));
        assert(views(r@).take(k + 1) =~= views(r@).take(k as int).push(views(r@)[k as int]));
        k += 1;
    }
    proof {
        if views(r@).len() <= STACK_MAX {
            assert(views(r@).take(k as int) =~= views(r@));
        }
    }
    out
}

/// The bundles of one workspace's windows.
fn bundles_of(pairs: &[(String, String)], ws: &str) -> (r: Vec<String>)
    ensures
        views(r@) == bundles_in(pair_views(pairs@), ws@),
{
    let mut r: Vec<String> = Vec::new();
    let mut i: usize = 0;
    while i < pairs.len()
        invariant
            i <= pairs@.len(),
            views(r@) == bundles_in(pair_views(pairs@).take(i as int), ws@),
        decreases pairs.len() - i,
    {
        proof {
            assert(pair_views(pairs@).take(i + 1).drop_last() =~= pair_views(pairs@).take(
                i as int,
            ));
        }
        let b = chars_of(pairs[i].1.as_str());
        if same_text(pairs[i].0.as_str(), ws) && b.len() > 0 {
            let ghost before = r@;
            r.push(copy_text(&pairs[i].1));
            assert(views(r@) =~= views(before).push(pairs@[i as int].1@));
        }
        i += 1;
    }
    assert(pair_views(pairs@).take(pairs@.len() as int) =~= pair_views(pairs@));
    r
}

fn count_in(pairs: &[(String, String)], ws: &str) -> (n: usize)
    ensures
        n == windows_in(pair_views(pairs@), ws@),
{
    let mut n: usize = 0;
    let mut i: usize = 0;
    while i < pairs.len()
        invariant
            i <= pairs@.len(),
            n <= i,
            n == windows_in(pair_views(pairs@).take(i as int), ws@),
        decreases pairs.len() - i,
    {
        proof {
            assert(pair_views(pairs@).take(i + 1).drop_last() =~= pair_views(pairs@).take(
                i as int,
            ));
        }
        if same_text(pairs[i].0.as_str(), ws) {
            n += 1;
        }
        i += 1;
    }
    assert(pair_views(pairs@).take(pairs@.len() as int) =~= pair_views(pairs@));
    n
}

/// What a map of workspaces to occupancy says of `(workspace, bundle)` pairs:
/// exactly the named workspaces are keys, each with its window count and
/// icon stack.
pub open spec fn occupancy_matches(m: NameMap<Occupancy>, ps: Seq<(Seq<char>, Seq<char>)>) -> bool {
    &&& forall|ws: Seq<char>|
        #[trigger] m.has(ws) <==> (ws.len() > 0 && exists|j: int|
            0 <= j < ps.len() && #[trigger] ps[j].0 == ws)
    &&& forall|ws: Seq<char>|
        #[trigger] m.has(ws) ==> m.lookup(ws).unwrap().count == windows_in(ps, ws) && views(
            m.lookup(ws).unwrap().stack@,
        ) == stack_of(bundles_in(ps, ws))
}

/// The same, from bare `(workspace, bundle)` pairs — which is all AeroSpace
/// has to be asked for.
///
/// Rarest application first: nearly every window tends to belong to the same
/// browser, so a stack ordered by frequency would be five identical icons on
/// almost every row. Ties break on the bundle id, so the same workspace draws
/// the same stack every time. Multiplicity is kept, so the length of the stack
/// is itself a reading of how full the workspace is.
pub fn occupancy_from(pairs: &[(String, String)]) -> (m: NameMap<Occupancy>)
    ensures
        occupancy_matches(m, pair_views(pairs@)),
{
    let ghost ps = pair_views(pairs@);
    let mut m: NameMap<Occupancy> = NameMap::new();
    let mut i: usize = 0;
    while i < pairs.len()
        invariant
            i <= pairs@.len(),
            ps == pair_views(pairs@),
            forall|ws: Seq<char>|
                #[trigger] m.has(ws) <==> (ws.len() > 0 && exists|j: int|
                    0 <= j < i && #[trigger] ps[j].0 == ws),
            forall|ws: Seq<char>|
                #[trigger] m.has(ws) ==> m.lookup(ws).unwrap().count == windows_in(ps, ws)
                    && views(m.lookup(ws).unwrap().stack@) == stack_of(bundles_in(ps, ws)),
        decreases pairs.len() - i,
    {
        let ws = &pairs[i].0;
        let wc = chars_of(ws.as_str());
        if wc.len() > 0 && !m.contains_key(ws.as_str()) {
            let occ = Occupancy {
                count: count_in(pairs, ws.as_str()),
                stack: stack_from(&bundles_of(pairs, ws.as_str())),
            };
            m.insert(copy_text(ws), occ);
        }
        proof {
            assert(ps[i as int].0 == ws@);
            assert forall|x: Seq<char>| #[trigger] m.has(x) <==> (x.len() > 0 && exists|j: int|
                0 <= j < i + 1 && #[trigger] ps[j].0 == x) by {
                if x.len() > 0 && exists|j: int| 0 <= j < i + 1 && #[trigger] ps[j].0 == x {
                    let j = choose|j: int| 0 <= j < i + 1 && #[trigger] ps[j].0 == x;
                    if j < i {
                    }
                }
            }
        }
        i += 1;
    }
    m
}

/// Group windows by workspace and work out each one's icon stack.
pub fn occupancy_of(windows: &[Window]) -> (m: NameMap<Occupancy>)
    ensures
        occupancy_matches(m, window_pairs(windows@)),
{
    let mut pairs: Vec<(String, String)> = Vec::new();
    let mut i: usize = 0;
    while i < windows.len()
        invariant
            i <= windows@.len(),
            pair_views(pairs@) == window_pairs(windows@.take(i as int)),
        decreases windows.len() - i,
    {
        let ghost before = pairs@;
        pairs.push((copy_text(&windows[i].workspace), copy_text(&windows[i].bundle)));
        assert(pair_views(pairs@) =~= pair_views(before).push(
            (windows@[i as int].workspace@, windows@[i as int].bundle@),
        ));
        assert(window_pairs(windows@.take(i + 1)) =~= window_pairs(windows@.take(i as int)).push(
            (windows@[i as int].workspace@, windows@[i as int].bundle@),
        ));
        i += 1;
    }
    assert(windows@.take(windows@.len() as int) =~= windows@);
    occupancy_from(pairs.as_slice())
}

/// Each window as its `(workspace, bundle)` pair.
pub open spec fn window_pairs(ws: Seq<Window>) -> Seq<(Seq<char>, Seq<char>)> {
    ws.map_values(|w: Window| (w.workspace@, w.bundle@))
}


// ---------------------------------------------------------------------------
// Folders
// ---------------------------------------------------------------------------

/// The key under which names with no `-` are grouped.
pub open spec fn other_key() -> Seq<char> {
    "_other"@
}

/// The project a name belongs to: what comes before its first `-`.
pub open spec fn prefix_of(name: Seq<char>) -> Seq<char> {
    match split_once_char(name, '-') {
        Some((p, _)) => p,
        None => other_key(),
    }
}

pub open spec fn has_prefix_in(names: Seq<Seq<char>>, p: Seq<char>) -> bool {
    exists|i: int| 0 <= i < names.len() && #[trigger] prefix_of(names[i]) == p
}

/// The configured prefixes that some name actually uses, in configured order.
pub open spec fn used_in_order(order: Seq<Seq<char>>, names: Seq<Seq<char>>) -> Seq<Seq<char>>
    decreases order.len(),
{
    if order.len() == 0 {
        Seq::<Seq<char>>::empty()
    } else {
        let rest = used_in_order(order.drop_last(), names);
        if has_prefix_in(names, order.last()) {
            rest.push(order.last())
        } else {
            rest
        }
    }
}

pub open spec fn leftover(names: Seq<Seq<char>>, order: Seq<Seq<char>>, p: Seq<char>) -> bool {
    has_prefix_in(names, p) && !order.contains(p) && p != other_key()
}

/// The prefixes nobody configured, alphabetically, each once.
pub open spec fn leftover_prefixes(names: Seq<Seq<char>>, order: Seq<Seq<char>>) -> Seq<Seq<char>> {
    choose|r: Seq<Seq<char>>|
        strictly_sorted(r) && forall|p: Seq<char>| #[trigger] r.contains(p) <==> leftover(
            names,
            order,
            p,
        )
}

/// The folders, in the order they are shown: configured prefixes first, the
/// rest alphabetically, and unprefixed names last.
pub open spec fn group_keys(names: Seq<Seq<char>>, order: Seq<Seq<char>>) -> Seq<Seq<char>> {
    used_in_order(order, names) + leftover_prefixes(names, order) + if has_prefix_in(
        names,
        other_key(),
    ) {
        seq![other_key()]
    } else {
        Seq::<Seq<char>>::empty()
    }
}

/// The names under a prefix, in the order given.
pub open spec fn with_prefix(names: Seq<Seq<char>>, p: Seq<char>) -> Seq<Seq<char>>
    decreases names.len(),
{
    if names.len() == 0 {
        Seq::<Seq<char>>::empty()
    } else {
        let rest = with_prefix(names.drop_last(), p);
        if prefix_of(names.last()) == p {
            rest.push(names.last())
        } else {
            rest
        }
    }
}

/// What the `k`th folder holds: its names alphabetically, the first time its
/// prefix is listed, and nothing if the same prefix was listed before.
pub open spec fn group_members(names: Seq<Seq<char>>, keys: Seq<Seq<char>>, k: int) -> Seq<
    Seq<char>,
> {
    if forall|j: int| 0 <= j < k ==> keys[j] != keys[k] {
        sorted_texts(with_prefix(names, keys[k]))
    } else {
        Seq::<Seq<char>>::empty()
    }
}

/// A folder's heading: its configured label, or the prefix itself, and
/// "elsewhere" for names with no prefix.
pub open spec fn heading_of(key: Seq<char>, labels: NameMap<String>) -> Seq<char> {
    if key == other_key() {
        "elsewhere"@
    } else {
        match labels.lookup(key) {
            Some(v) => v@,
            None => key,
        }
    }
}

pub fn prefix_exec(name: &str) -> (r: String)
    ensures
        r@ == prefix_of(name@),
{
    let c = chars_of(name);
    match split_once_char_exec(c.as_slice(), '-') {
        Some((p, _)) => string_of(p.as_slice()),
        None => owned("_other"),
    }
}

fn contains_text_in(list: &[String], x: &str) -> (r: bool)
    ensures
        r == views(list@).contains(x@),
{
    let mut i: usize = 0;
    while i < list.len()
        invariant
            i <= list@.len(),
            forall|j: int| 0 <= j < i ==> list@[j]@ != x@,
        decreases list.len() - i,
    {
        if same_text(list[i].as_str(), x) {
            assert(views(list@)[i as int] == x@);
            return true;
        }
        i += 1;
    }
    proof {
        if views(list@).contains(x@) {
            let j = choose|j: int| 0 <= j < views(list@).len() && views(list@)[j] == x@;
            assert(list@[j]@ == x@);
        }
    }
    false
}

proof fn lemma_with_prefix_has(names: Seq<Seq<char>>, i: int)
    requires
        0 <= i < names.len(),
    ensures
        with_prefix(names, prefix_of(names[i])).contains(names[i]),
    decreases names.len(),
{
    let p = prefix_of(names[i]);
    let rest = with_prefix(names.drop_last(), p);
    if i == names.len() - 1 {
        assert(with_prefix(names, p) == rest.push(names.last()));
        assert(rest.push(names.last())[rest.len() as int] == names[i]);
    } else {
        assert(names.drop_last()[i] == names[i]);
        lemma_with_prefix_has(names.drop_last(), i);
        let j = choose|j: int| 0 <= j < rest.len() && rest[j] == names[i];
        if prefix_of(names.last()) == p {
            assert(rest.push(names.last())[j] == names[i]);
        }
    }
}

proof fn lemma_used_in_order_has(order: Seq<Seq<char>>, names: Seq<Seq<char>>, p: Seq<char>)
    requires
        order.contains(p),
        has_prefix_in(names, p),
    ensures
        used_in_order(order, names).contains(p),
    decreases order.len(),
{
    let rest = used_in_order(order.drop_last(), names);
    if order.last() == p {
        assert(rest.push(p)[rest.len() as int] == p);
    } else {
        let j = choose|j: int| 0 <= j < order.len() && order[j] == p;
        assert(order.drop_last()[j] == p);
        lemma_used_in_order_has(order.drop_last(), names, p);
        let a = choose|a: int| 0 <= a < rest.len() && rest[a] == p;
        if has_prefix_in(names, order.last()) {
            assert(rest.push(order.last())[a] == p);
        }
    }
}

proof fn lemma_with_prefix_prefix(names: Seq<Seq<char>>, p: Seq<char>, x: Seq<char>)
    requires
        with_prefix(names, p).contains(x),
    ensures
        prefix_of(x) == p,
    decreases names.len(),
{
    if names.len() > 0 {
        let rest = with_prefix(names.drop_last(), p);
        if rest.contains(x) {
            lemma_with_prefix_prefix(names.drop_last(), p, x);
        } else {
            let j = choose|j: int| 0 <= j < with_prefix(names, p).len() && with_prefix(names, p)[j] == x;
            assert(j == rest.len());
        }
    }
}

proof fn lemma_used_in_order_distinct(order: Seq<Seq<char>>, names: Seq<Seq<char>>)
    requires
        order.no_duplicates(),
    ensures
        used_in_order(order, names).no_duplicates(),
        forall|x: Seq<char>| #[trigger] used_in_order(order, names).contains(x) ==> order.contains(x),
    decreases order.len(),
{
    if order.len() > 0 {
        let init = order.drop_last();
        assert(init.no_duplicates()) by {
            assert forall|i: int, j: int| 0 <= i < j < init.len() implies init[i] != init[j] by {
                assert(init[i] == order[i] && init[j] == order[j]);
            }
        }
        lemma_used_in_order_distinct(init, names);
        let rest = used_in_order(init, names);
        assert forall|x: Seq<char>| #[trigger] rest.contains(x) implies order.contains(x) by {
            let i = choose|i: int| 0 <= i < init.len() && init[i] == x;
            assert(order[i] == x);
        }
        if has_prefix_in(names, order.last()) {
            let now = rest.push(order.last());
            assert(!rest.contains(order.last())) by {
                if rest.contains(order.last()) {
                    let i = choose|i: int| 0 <= i < init.len() && init[i] == order.last();
                    assert(order[i] == order[order.len() - 1]);
                }
            }
            assert forall|i: int, j: int| 0 <= i < j < now.len() implies now[i] != now[j] by {
                if j == now.len() - 1 {
                    assert(rest[i] == now[i]);
                    assert(rest.contains(now[i]));
                }
            }
            assert forall|x: Seq<char>| #[trigger] now.contains(x) implies order.contains(x) by {
                let i = choose|i: int| 0 <= i < now.len() && now[i] == x;
                if i < rest.len() {
                    assert(rest[i] == x);
                    assert(rest.contains(x));
                } else {
                    assert(order[order.len() - 1] == x);
                }
            }
        }
    }
}

/// With configured prefixes listed once each and none of them `_other`, no
/// folder is listed twice.
proof fn lemma_keys_distinct(names: Seq<Seq<char>>, order: Seq<Seq<char>>)
    requires
        order.no_duplicates(),
        !order.contains(other_key()),
        strictly_sorted(leftover_prefixes(names, order)),
        forall|p: Seq<char>| #[trigger] leftover_prefixes(names, order).contains(p) <==> leftover(
            names,
            order,
            p,
        ),
    ensures
        group_keys(names, order).no_duplicates(),
{
    let used = used_in_order(order, names);
    let left = leftover_prefixes(names, order);
    let tail = if has_prefix_in(names, other_key()) {
        seq![other_key()]
    } else {
        Seq::<Seq<char>>::empty()
    };
    let keys = group_keys(names, order);
    assert(keys == used + left + tail);
    lemma_used_in_order_distinct(order, names);
    lemma_strictly_sorted_distinct(left);
    assert forall|i: int, j: int| 0 <= i < j < keys.len() implies keys[i] != keys[j] by {
        let a = used.len() as int;
        let b = (used.len() + left.len()) as int;
        if j < a {
            assert(keys[i] == used[i] && keys[j] == used[j]);
        } else if j < b {
            assert(keys[j] == left[j - a]);
            assert(left.contains(left[j - a]));
            if i < a {
                assert(keys[i] == used[i]);
                assert(used.contains(used[i]));
            } else {
                assert(keys[i] == left[i - a]);
            }
        } else {
            assert(keys[j] == other_key());
            if i < a {
                assert(keys[i] == used[i]);
                assert(used.contains(used[i]));
            } else {
                assert(keys[i] == left[i - a]);
                assert(left.contains(left[i - a]));
            }
        }
    }
}

/// Every name lands in the folder of its prefix: the first folder listed
/// under that prefix holds it.
proof fn lemma_every_name_grouped(names: Seq<Seq<char>>, order: Seq<Seq<char>>, i: int)
    requires
        0 <= i < names.len(),
        strictly_sorted(leftover_prefixes(names, order)),
        forall|p: Seq<char>| #[trigger] leftover_prefixes(names, order).contains(p) <==> leftover(
            names,
            order,
            p,
        ),
    ensures
        exists|k: int|
            0 <= k < group_keys(names, order).len() && #[trigger] group_members(
                names,
                group_keys(names, order),
                k,
            ).contains(names[i]),
{
    let p = prefix_of(names[i]);
    let keys = group_keys(names, order);
    let used = used_in_order(order, names);
    let left = leftover_prefixes(names, order);
    let tail = if has_prefix_in(names, other_key()) {
        seq![other_key()]
    } else {
        Seq::<Seq<char>>::empty()
    };
    assert(keys == used + left + tail);
    assert(has_prefix_in(names, p));
    if order.contains(p) {
        lemma_used_in_order_has(order, names, p);
        let a = choose|a: int| 0 <= a < used.len() && used[a] == p;
        assert(keys[a] == p);
    } else if p != other_key() {
        assert(leftover(names, order, p));
        assert(left.contains(p));
        let a = choose|a: int| 0 <= a < left.len() && left[a] == p;
        assert(keys[used.len() + a] == p);
    } else {
        assert(keys[(used.len() + left.len()) as int] == p);
    }
    let is_p = |q: Seq<char>| q == p;
    crate::text::lemma_first_index(keys, is_p);
    let k = crate::text::first_index(keys, is_p)->0;
    assert(keys[k] == p);
    assert(forall|j: int| 0 <= j < k ==> keys[j] != keys[k]) by {
        assert forall|j: int| 0 <= j < k implies keys[j] != keys[k] by {
            assert(!is_p(keys[j]));
        }
    }
    lemma_with_prefix_has(names, i);
    crate::text::lemma_sorted_contains(with_prefix(names, p), names[i]);
    assert(group_members(names, keys, k).contains(names[i]));
}

/// Whether some folder holds a name.
pub open spec fn in_some_group(groups: Seq<(String, Vec<String>)>, x: Seq<char>) -> bool {
    exists|k: int| 0 <= k < groups.len() && #[trigger] views(groups[k].1@).contains(x)
}

/// Bucket workspace names by the prefix before their first `-`.
///
/// Configured prefixes come first, the rest alphabetically, and unprefixed
/// names last under "elsewhere". No name is lost: each is in the folder of
/// its prefix.
pub fn group_workspaces(names: &[String], order: &[String], labels: &NameMap<String>) -> (r: Vec<
    (String, Vec<String>),
>)
    ensures
        r@.len() == group_keys(views(names@), views(order@)).len(),
        forall|k: int|
            0 <= k < r@.len() ==> {
                let keys = group_keys(views(names@), views(order@));
                &&& (#[trigger] r@[k]).0@ == heading_of(keys[k], *labels)
                &&& views(r@[k].1@) == group_members(views(names@), keys, k)
            },
        forall|i: int| 0 <= i < names@.len() ==> #[trigger] in_some_group(r@, views(names@)[i]),
        forall|k: int, x: Seq<char>|
            0 <= k < r@.len() && #[trigger] views(r@[k].1@).contains(x) ==> views(names@).contains(x)
                && prefix_of(x) == group_keys(views(names@), views(order@))[k],
        views(order@).no_duplicates() && !views(order@).contains(other_key()) ==> forall|
            k1: int,
            k2: int,
            x: Seq<char>,
        |
            0 <= k1 < r@.len() && 0 <= k2 < r@.len() && #[trigger] views(r@[k1].1@).contains(x)
                && #[trigger] views(r@[k2].1@).contains(x) ==> k1 == k2,
{
    let ghost ns = views(names@);
    let ghost os = views(order@);
    // Which prefixes are in use.
    let mut present: NameMap<bool> = NameMap::new();
    let mut i: usize = 0;
    while i < names.len()
        invariant
            i <= names@.len(),
            ns == views(names@),
            forall|p: Seq<char>| #[trigger] present.has(p) <==> has_prefix_in(ns.take(i as int), p),
        decreases names.len() - i,
    {
        let p = prefix_exec(names[i].as_str());
        present.insert(p, true);
        proof {
            assert forall|q: Seq<char>| #[trigger] present.has(q) <==> has_prefix_in(
                ns.take(i + 1),
                q,
            ) by {
                if has_prefix_in(ns.take(i + 1), q) {
                    let j = choose|j: int|
                        0 <= j < ns.take(i + 1).len() && #[trigger] prefix_of(ns.take(i + 1)[j])
                            == q;
                    if j < i {
                        assert(ns.take(i as int)[j] == ns.take(i + 1)[j]);
                    }
                }
                if has_prefix_in(ns.take(i as int), q) {
                    let j = choose|j: int|
                        0 <= j < ns.take(i as int).len() && #[trigger] prefix_of(
                            ns.take(i as int)[j],
                        ) == q;
                    assert(ns.take(i + 1)[j] == ns.take(i as int)[j]);
                }
                if q == p@ {
                    assert(ns.take(i + 1)[i as int] == names@[i as int]@);
                }
            }
        }
        i += 1;
    }
    assert(ns.take(names@.len() as int) =~= ns);
    // Configured prefixes in use, in the configured order.
    let mut keys: Vec<String> = Vec::new();
    let mut k: usize = 0;
    while k < order.len()
        invariant
            k <= order@.len(),
            os == views(order@),
            forall|p: Seq<char>| #[trigger] present.has(p) <==> has_prefix_in(ns, p),
            views(keys@) == used_in_order(os.take(k as int), ns),
        decreases order.len() - k,
    {
        proof {
            assert(os.take(k + 1).drop_last() =~= os.take(k as int));
        }
        if present.contains_key(order[k].as_str()) {
            let ghost before = keys@;
            keys.push(copy_text(&order[k]));
            assert(views(keys@) =~= views(before).push(os[k as int]));
        }
        k += 1;
    }
    assert(os.take(order@.len() as int) =~= os);
    let used_len = keys.len();
    // The rest, alphabetically: the map keeps its names in order.
    let mut rest: Vec<String> = Vec::new();
    let mut m: usize = 0;
    let other = owned("_other");
    proof {
        present.lemma_shape();
        use_type_invariant(&present);
    }
    while m < present.len()
        invariant
            m <= present.keys().len(),
            present.ordered(),
            os == views(order@),
            ns == views(names@),
            other@ == other_key(),
            forall|p: Seq<char>| #[trigger] present.has(p) <==> has_prefix_in(ns, p),
            strictly_sorted(views(rest@)),
            forall|x: Seq<char>|
                #[trigger] views(rest@).contains(x) <==> (exists|j: int|
                    0 <= j < m && present.keys()[j] == x) && !os.contains(x) && x
                    != other_key(),
            forall|a: int|
                0 <= a < views(rest@).len() ==> exists|j: int|
                    0 <= j < m && present.keys()[j] == #[trigger] views(rest@)[a],
            views(keys@).len() == used_len,
        decreases present.keys().len() - m,
    {
        let name = present.key_at(m);
        if !contains_text_in(order, name.as_str()) && !same_text(name.as_str(), other.as_str()) {
            let ghost before = rest@;
            rest.push(copy_text(name));
            proof {
                assert(views(rest@) =~= views(before).push(name@));
                assert forall|a: int, b: int|
                    0 <= a < b < views(rest@).len() implies text_lt(
                    #[trigger] views(rest@)[a],
                    #[trigger] views(rest@)[b],
                ) by {
                    if b == views(rest@).len() - 1 {
                        let j = choose|j: int|
                            0 <= j < m && present.keys()[j] == #[trigger] views(before)[a];
                        assert(text_lt(present.keys()[j], present.keys()[m as int]));
                    } else {
                        assert(views(rest@)[a] == views(before)[a]);
                        assert(views(rest@)[b] == views(before)[b]);
                    }
                }
                assert forall|x: Seq<char>| #[trigger] views(rest@).contains(x) <==> (exists|j: int|
                    0 <= j < m + 1 && present.keys()[j] == x) && !os.contains(x) && x
                    != other_key() by {
                    if views(rest@).contains(x) && x != name@ {
                        let a = choose|a: int| 0 <= a < views(rest@).len() && views(rest@)[a] == x;
                        assert(views(before)[a] == x);
                        assert(views(before).contains(x));
                    }
                    if (exists|j: int| 0 <= j < m + 1 && present.keys()[j] == x) && !os.contains(x)
                        && x != other_key() && x != name@ {
                        assert(views(before).contains(x));
                        let a = choose|a: int| 0 <= a < views(before).len() && views(before)[a] == x;
                        assert(views(rest@)[a] == x);
                    }
                    if x == name@ {
                        assert(views(rest@)[views(rest@).len() - 1] == x);
                    }
                }
                assert forall|a: int| 0 <= a < views(rest@).len() implies exists|j: int|
                    0 <= j < m + 1 && present.keys()[j] == #[trigger] views(rest@)[a] by {
                    if a < views(before).len() {
                        assert(views(rest@)[a] == views(before)[a]);
                        let j = choose|j: int|
                            0 <= j < m && present.keys()[j] == #[trigger] views(before)[a];
                    } else {
                        assert(present.keys()[m as int] == views(rest@)[a]);
                    }
                }
            }
        } else {
            proof {
                assert forall|x: Seq<char>| #[trigger] views(rest@).contains(x) <==> (exists|j: int|
                    0 <= j < m + 1 && present.keys()[j] == x) && !os.contains(x) && x
                    != other_key() by {
                    if (exists|j: int| 0 <= j < m + 1 && present.keys()[j] == x) && !os.contains(x)
                        && x != other_key() {
                        let j = choose|j: int| 0 <= j < m + 1 && present.keys()[j] == x;
                        if j == m {
                            assert(false);
                        }
                    }
                }
            }
        }
        m += 1;
    }
    proof {
        assert forall|p: Seq<char>| #[trigger] views(rest@).contains(p) <==> leftover(ns, os, p) by {
            if leftover(ns, os, p) {
                assert(present.has(p));
                let j = choose|j: int| 0 <= j < present.keys().len() && present.keys()[j] == p;
                assert(0 <= j < m && present.keys()[j] == p);
                assert(exists|j: int| 0 <= j < m && present.keys()[j] == p);
                assert(views(rest@).contains(p));
            }
            if views(rest@).contains(p) {
                assert(exists|j: int| 0 <= j < m && present.keys()[j] == p);
                let j = choose|j: int| 0 <= j < m && present.keys()[j] == p;
                assert(present.keys()[j] == p);
                assert(present.keys().contains(p));
                assert(present.has(p));
                assert(leftover(ns, os, p));
            }
        }
        let chosen = leftover_prefixes(ns, os);
        assert(strictly_sorted(chosen) && forall|p: Seq<char>| #[trigger] chosen.contains(p)
            <==> leftover(ns, os, p));
        lemma_strictly_sorted_unique(views(rest@), chosen);
    }
    let mut j: usize = 0;
    while j < rest.len()
        invariant
            j <= rest@.len(),
            views(keys@) == used_in_order(os, ns) + views(rest@).take(j as int),
        decreases rest.len() - j,
    {
        let ghost before = keys@;
        keys.push(copy_text(&rest[j]));
        assert(views(keys@) =~= views(before).push(rest@[j as int]@));
        assert(views(rest@).take(j + 1) =~= views(rest@).take(j as int).push(rest@[j as int]@));
        j += 1;
    }
    assert(views(rest@).take(rest@.len() as int) =~= views(rest@));
    if present.contains_key(other.as_str()) {
        let ghost before = keys@;
        keys.push(copy_text(&other));
        assert(views(keys@) =~= views(before).push(other_key()));
    }
    let ghost gk = group_keys(ns, os);
    assert(views(keys@) =~= gk);
    // Each folder with its members.
    let mut out: Vec<(String, Vec<String>)> = Vec::new();
    let mut g: usize = 0;
    while g < keys.len()
        invariant
            g <= keys@.len(),
            views(keys@) == gk,
            gk == group_keys(ns, os),
            ns == views(names@),
            out@.len() == g,
            forall|k: int|
                0 <= k < g ==> {
                    &&& (#[trigger] out@[k]).0@ == heading_of(gk[k], *labels)
                    &&& views(out@[k].1@) == group_members(ns, gk, k)
                },
        decreases keys.len() - g,
    {
        let key = &keys[g];
        let heading = if same_text(key.as_str(), "_other") {
            owned("elsewhere")
        } else {
            match labels.get(key.as_str()) {
                Some(v) => copy_text(v),
                None => copy_text(key),
            }
        };
        let mut first = true;
        let mut e: usize = 0;
        while e < g
            invariant
                e <= g < keys@.len(),
                key@ == views(keys@)[g as int],
                first == forall|j: int| 0 <= j < e ==> views(keys@)[j] != views(keys@)[g as int],
            decreases g - e,
        {
            if same_text(keys[e].as_str(), key.as_str()) {
                assert(views(keys@)[e as int] == views(keys@)[g as int]);
                first = false;
            } else {
                assert(views(keys@)[e as int] != views(keys@)[g as int]);
            }
            e += 1;
        }
        let members = if first {
            let mut mine: Vec<String> = Vec::new();
            let mut n: usize = 0;
            while n < names.len()
                invariant
                    n <= names@.len(),
                    g < keys@.len(),
                    key@ == views(keys@)[g as int],
                    ns == views(names@),
                    views(mine@) == with_prefix(ns.take(n as int), views(keys@)[g as int]),
                decreases names.len() - n,
            {
                proof {
                    assert(ns.take(n + 1).drop_last() =~= ns.take(n as int));
                }
                let p = prefix_exec(names[n].as_str());
                if same_text(p.as_str(), key.as_str()) {
                    let ghost before = mine@;
                    mine.push(copy_text(&names[n]));
                    assert(views(mine@) =~= views(before).push(ns[n as int]));
                }
                n += 1;
            }
            assert(ns.take(names@.len() as int) =~= ns);
            sort_texts(&mine)
        } else {
            Vec::new()
        };
        proof {
            if !first {
                assert(views(members@) =~= Seq::<Seq<char>>::empty());
            }
        }
        out.push((heading, members));
        g += 1;
    }
    proof {
        assert forall|i: int| 0 <= i < names@.len() implies #[trigger] in_some_group(
            out@,
            views(names@)[i],
        ) by {
            lemma_every_name_grouped(ns, os, i);
            let k = choose|k: int|
                0 <= k < gk.len() && #[trigger] group_members(ns, gk, k).contains(ns[i]);
            assert(views(out@[k].1@) == group_members(ns, gk, k));
        }
        assert forall|k: int, x: Seq<char>|
            0 <= k < out@.len() && #[trigger] views(out@[k].1@).contains(x) implies ns.contains(x)
                && prefix_of(x) == gk[k] by {
            assert(views(out@[k].1@) == group_members(ns, gk, k));
            if forall|j: int| 0 <= j < k ==> gk[j] != gk[k] {
                crate::text::lemma_sorted_contains(with_prefix(ns, gk[k]), x);
                lemma_with_prefix_within(ns, gk[k], x);
                lemma_with_prefix_prefix(ns, gk[k], x);
            } else {
                assert(group_members(ns, gk, k) =~= Seq::<Seq<char>>::empty());
            }
        }
        if os.no_duplicates() && !os.contains(other_key()) {
            lemma_keys_distinct(ns, os);
            assert forall|k1: int, k2: int, x: Seq<char>|
                0 <= k1 < out@.len() && 0 <= k2 < out@.len() && #[trigger] views(out@[k1].1@).contains(
                    x,
                ) && #[trigger] views(out@[k2].1@).contains(x) implies k1 == k2 by {
                assert(prefix_of(x) == gk[k1]);
                assert(prefix_of(x) == gk[k2]);
            }
        }
    }
    out
}


// ---------------------------------------------------------------------------
// Rows
// ---------------------------------------------------------------------------

/// A menu line with its parts still separate, for a front end that can lay
/// them out itself. The rendered `items` stay for the AppleScript fallback,
/// which can only take flat strings.
#[derive(Debug, Clone, PartialEq)]
pub struct Row {
    pub id: String,
    pub label: String,
    pub section: Option<String>,
    pub count: Option<usize>,
    pub marker: Option<String>,
    pub pinned: bool,
    pub detail: Option<String>,
    /// For a tab row: whether it is the one currently showing.
    pub active: bool,
    /// Bundle id for the icon, on window rows.
    pub bundle: Option<String>,
    /// Bundle ids standing in for what a workspace holds, on task rows.
    pub stack: Vec<String>,
}

/// A row as text.
pub struct RowView {
    pub id: Seq<char>,
    pub label: Seq<char>,
    pub section: Option<Seq<char>>,
    pub count: Option<usize>,
    pub marker: Option<Seq<char>>,
    pub pinned: bool,
    pub detail: Option<Seq<char>>,
    pub active: bool,
    pub bundle: Option<Seq<char>>,
    pub stack: Seq<Seq<char>>,
}

pub open spec fn opt_text(o: Option<String>) -> Option<Seq<char>> {
    match o {
        Some(s) => Some(s@),
        None => None,
    }
}

impl View for Row {
    type V = RowView;

    open spec fn view(&self) -> RowView {
        RowView {
            id: self.id@,
            label: self.label@,
            section: opt_text(self.section),
            count: self.count,
            marker: opt_text(self.marker),
            pinned: self.pinned,
            detail: opt_text(self.detail),
            active: self.active,
            bundle: opt_text(self.bundle),
            stack: views(self.stack@),
        }
    }
}

/// Each row as text.
pub open spec fn row_views(rows: Seq<Row>) -> Seq<RowView> {
    rows.map_values(|r: Row| r@)
}

pub fn copy_opt_text(o: &Option<String>) -> (r: Option<String>)
    ensures
        opt_text(r) == opt_text(*o),
{
    match o {
        Some(s) => Some(copy_text(s)),
        None => None,
    }
}

pub fn copy_texts(v: &Vec<String>) -> (r: Vec<String>)
    ensures
        views(r@) == views(v@),
{
    let mut r: Vec<String> = Vec::new();
    let mut i: usize = 0;
    while i < v.len()
        invariant
            i <= v@.len(),
            views(r@) == views(v@).take(i as int),
        decreases v.len() - i,
    {
        let ghost before = r@;
        r.push(copy_text(&v[i]));
        assert(views(r@) =~= views(before).push(v@[i as int]@));
        assert(views(v@).take(i + 1) =~= views(v@).take(i as int).push(v@[i as int]@));
        i += 1;
    }
    assert(views(v@).take(v@.len() as int) =~= views(v@));
    r
}

impl Row {
    /// The same row.
    pub fn duplicate(&self) -> (r: Row)
        ensures
            r@ == self@,
    {
        Row {
            id: copy_text(&self.id),
            label: copy_text(&self.label),
            section: copy_opt_text(&self.section),
            count: self.count,
            marker: copy_opt_text(&self.marker),
            pinned: self.pinned,
            detail: copy_opt_text(&self.detail),
            active: self.active,
            bundle: copy_opt_text(&self.bundle),
            stack: copy_texts(&self.stack),
        }
    }

    pub open spec fn action_view(id: Seq<char>, label: Seq<char>) -> RowView {
        RowView {
            id,
            label,
            section: None,
            count: None,
            marker: Some("action"@),
            pinned: false,
            detail: None,
            active: false,
            bundle: None,
            stack: Seq::<Seq<char>>::empty(),
        }
    }

    /// A row that does something rather than naming a destination.
    pub fn action(id: &str, label: &str) -> (r: Self)
        ensures
            r@ == Self::action_view(id@, label@),
    {
        let r = Row {
            id: owned(id),
            label: owned(label),
            section: None,
            count: None,
            marker: Some(owned("action")),
            pinned: false,
            detail: None,
            active: false,
            bundle: None,
            stack: Vec::new(),
        };
        assert(views(r.stack@) =~= Seq::<Seq<char>>::empty());
        r
    }

    /// A mode, drawn as a tab by a front end that can, and as an ordinary
    /// row by one that cannot.
    pub fn tab(id: &str, label: &str, active: bool) -> (r: Self)
        ensures
            r@ == (RowView { marker: Some("tab"@), active, ..Self::action_view(id@, label@) }),
    {
        let mut r = Self::action(id, label);
        r.marker = Some(owned("tab"));
        r.active = active;
        r
    }

    /// What is being slung: its icon and what the window says it is — the
    /// title leads, and an untitled window falls back to its application.
    pub fn subject(app: &str, title: &str, bundle: &str) -> (r: Self)
        ensures
            r@ == (RowView {
                marker: Some("subject"@),
                bundle: Some(bundle@),
                ..Self::action_view(
                    "__subject__"@,
                    shortened(
                        if title@.len() == 0 {
                            app@
                        } else {
                            tab_title_text(app@, title@)
                        },
                        72,
                    ),
                )
            }),
    {
        let name = if title.is_empty() {
            owned(app)
        } else {
            tab_title(app, title)
        };
        let label = shorten_label(name.as_str(), 72);
        let mut r = Self::action("__subject__", label.as_str());
        r.marker = Some(owned("subject"));
        r.bundle = Some(owned(bundle));
        r
    }

    /// A task holding nothing: still somewhere a window can be dropped.
    pub fn space(name: &str) -> (r: Self)
        ensures
            r@ == (RowView {
                marker: Some("space"@),
                section: Some(name@),
                ..Self::action_view(name@, name@)
            }),
    {
        let mut r = Self::action(name, name);
        r.marker = Some(owned("space"));
        r.section = Some(owned(name));
        r
    }

    /// A setting that reads as an ordinary row and carries a tick, rather
    /// than an action that announces itself.
    pub fn toggle(id: &str, label: &str, on: bool) -> (r: Self)
        ensures
            r@ == (RowView {
                marker: Some("setting"@),
                active: on,
                section: Some("here"@),
                ..Self::action_view(id@, label@)
            }),
    {
        let mut r = Self::action(id, label);
        r.marker = Some(owned("setting"));
        r.active = on;
        r.section = Some(owned("here"));
        r
    }
}

/// How a row reads in the flat AppleScript list.
pub open spec fn rendered(row: RowView) -> Seq<char> {
    if row.marker == Some("action"@) {
        row.label
    } else {
        let lead = if row.marker == Some("here"@) {
            HERE@ + "  "@
        } else {
            "    "@
        };
        let counted = match row.count {
            Some(n) => if n > 0 {
                "  ("@ + decimal(n as nat) + ")"@
            } else {
                Seq::<char>::empty()
            },
            None => Seq::<char>::empty(),
        };
        let note = if row.marker == Some("here"@) {
            "  (this window is here)"@
        } else {
            Seq::<char>::empty()
        };
        lead + row.label + counted + note
    }
}

/// A row that is not an action reads as its label, set off by a lead, then
/// its count in brackets when it has a count above zero.
pub proof fn lemma_rendered_count(row: RowView, n: usize)
    requires
        row.marker != Some("action"@),
        row.count == Some(n),
        n > 0,
    ensures
        exists|lead: Seq<char>, rest: Seq<char>|
            rendered(row) == lead + row.label + "  ("@ + decimal(n as nat) + ")"@ + rest,
{
    let lead = if row.marker == Some("here"@) {
        HERE@ + "  "@
    } else {
        "    "@
    };
    let note = if row.marker == Some("here"@) {
        "  (this window is here)"@
    } else {
        Seq::<char>::empty()
    };
    assert(rendered(row) == lead + row.label + ("  ("@ + decimal(n as nat) + ")"@) + note);
    assert(lead + row.label + ("  ("@ + decimal(n as nat) + ")"@) + note =~= lead + row.label
        + "  ("@ + decimal(n as nat) + ")"@ + note);
}

/// The row of the workspace the window is in opens with the `●` mark and
/// ends by saying the window is here; every other row that is not an action
/// opens with four spaces and then its label.
pub proof fn lemma_rendered_here(row: RowView)
    ensures
        row.marker == Some("here"@) ==> {
            let r = rendered(row);
            &&& r.take(HERE@.len() as int) == HERE@
            &&& r.skip(r.len() - "  (this window is here)"@.len()) == "  (this window is here)"@
        },
        row.marker != Some("here"@) && row.marker != Some("action"@) ==> rendered(row).take(
            4 + row.label.len() as int,
        ) == "    "@ + row.label,
{
    reveal_strlit("here");
    reveal_strlit("action");
    let counted = match row.count {
        Some(n) => if n > 0 {
            "  ("@ + decimal(n as nat) + ")"@
        } else {
            Seq::<char>::empty()
        },
        None => Seq::<char>::empty(),
    };
    if row.marker == Some("here"@) {
        assert(row.marker != Some("action"@)) by {
            assert("here"@.len() != "action"@.len());
        }
        let note = "  (this window is here)"@;
        let r = HERE@ + "  "@ + row.label + counted + note;
        assert(rendered(row) == r);
        assert(r.take(HERE@.len() as int) =~= HERE@);
        assert(r.skip(r.len() - note.len()) =~= note);
    } else if row.marker != Some("action"@) {
        reveal_strlit("    ");
        let r = "    "@ + row.label + counted + Seq::<char>::empty();
        assert(rendered(row) == r);
        assert(r.take(4 + row.label.len() as int) =~= "    "@ + row.label);
    }
}

/// Without a count above zero, nothing follows the label but the note that
/// the window is here; an action is its label alone.
pub proof fn lemma_rendered_plain(row: RowView)
    ensures
        row.marker == Some("action"@) ==> rendered(row) == row.label,
        row.marker != Some("action"@) && row.marker != Some("here"@) && !(row.count matches Some(
            n,
        ) && n > 0) ==> rendered(row) == "    "@ + row.label,
{
    if row.marker != Some("action"@) && row.marker != Some("here"@) && !(row.count matches Some(n)
        && n > 0) {
        assert("    "@ + row.label + Seq::<char>::empty() + Seq::<char>::empty() =~= "    "@
            + row.label);
    }
}

fn is_marker(row: &Row, what: &str) -> (r: bool)
    ensures
        r == (opt_text(row.marker) == Some(what@)),
{
    match &row.marker {
        Some(m) => same_text(m.as_str(), what),
        None => false,
    }
}

/// Render a row the way the flat AppleScript list needs it.
pub fn render_row(row: &Row) -> (r: String)
    ensures
        r@ == rendered(row@),
{
    if is_marker(row, "action") {
        return copy_text(&row.label);
    }
    let here = is_marker(row, "here");
    let mut line = if here {
        concat_chars(chars_of(HERE).as_slice(), chars_of("  ").as_slice())
    } else {
        chars_of("    ")
    };
    append_chars(&mut line, chars_of(row.label.as_str()).as_slice());
    match row.count {
        Some(n) => {
            if n > 0 {
                append_chars(&mut line, chars_of("  (").as_slice());
                append_chars(&mut line, decimal_chars(n).as_slice());
                append_chars(&mut line, chars_of(")").as_slice());
            }
        },
        None => {},
    }
    if here {
        append_chars(&mut line, chars_of("  (this window is here)").as_slice());
    }
    string_of(line.as_slice())
}

/// Whether a chosen line names this row: by its rendered form, its id, or
/// its label, all compared trimmed.
pub open spec fn names_row(row: RowView, chosen: Seq<char>) -> bool {
    let want = trim(chosen);
    trim(rendered(row)) == want || row.id == want || trim(row.label) == want
}

/// Every row answers to its own rendered line, so a rendered row handed
/// back is always found: as itself, or as an earlier row that reads the same.
pub proof fn lemma_row_answers_to_its_line(row: RowView)
    ensures
        names_row(row, rendered(row)),
{
}

/// Which row a chosen line names: the first that answers to it. Matches on
/// the rendered form, trimmed, because a dialog hands its answer back
/// without leading whitespace.
pub fn row_id_for(rows: &[Row], chosen: &str) -> (r: Option<String>)
    ensures
        match r {
            Some(id) => exists|k: int|
                0 <= k < rows@.len() && names_row(rows@[k]@, chosen@) && (forall|j: int|
                    0 <= j < k ==> !names_row(#[trigger] rows@[j]@, chosen@)) && id@
                    == rows@[k]@.id,
            None => forall|k: int| 0 <= k < rows@.len() ==> !names_row(#[trigger] rows@[k]@, chosen@),
        },
{
    let want = trim_chars(chars_of(chosen).as_slice());
    let mut i: usize = 0;
    while i < rows.len()
        invariant
            i <= rows@.len(),
            want@ == trim(chosen@),
            forall|j: int| 0 <= j < i ==> !names_row(#[trigger] rows@[j]@, chosen@),
        decreases rows.len() - i,
    {
        let row = &rows[i];
        let shown = trim_chars(chars_of(render_row(row).as_str()).as_slice());
        let label = trim_chars(chars_of(row.label.as_str()).as_slice());
        let id = chars_of(row.id.as_str());
        if same_chars(shown.as_slice(), want.as_slice()) || same_chars(id.as_slice(), want.as_slice())
            || same_chars(label.as_slice(), want.as_slice()) {
            return Some(copy_text(&row.id));
        }
        i += 1;
    }
    None
}


// ---------------------------------------------------------------------------
// The task menu
// ---------------------------------------------------------------------------

/// Names in first-seen order, each once, leaving out blanks.
pub open spec fn distinct_names(all: Seq<Seq<char>>) -> Seq<Seq<char>>
    decreases all.len(),
{
    if all.len() == 0 {
        Seq::<Seq<char>>::empty()
    } else {
        let rest = distinct_names(all.drop_last());
        if all.last().len() > 0 && !rest.contains(all.last()) {
            rest.push(all.last())
        } else {
            rest
        }
    }
}

/// What a workspace is known to hold, when the window manager answered.
pub open spec fn held_at(held: Option<NameMap<Occupancy>>, name: Seq<char>) -> Option<Occupancy> {
    match held {
        Some(h) => h.lookup(name),
        None => None,
    }
}

/// The workspaces the menu offers: every occupied one, then the known and
/// remembered names, then where the window is now.
pub open spec fn menu_names(
    held: Option<NameMap<Occupancy>>,
    known: Seq<Seq<char>>,
    cached: Seq<Seq<char>>,
    current: Seq<char>,
) -> Seq<Seq<char>> {
    let occupied = match held {
        Some(h) => h.keys(),
        None => Seq::<Seq<char>>::empty(),
    };
    distinct_names(occupied + known + cached + seq![current])
}

/// Whether the current workspace gets a "here" group of its own.
pub open spec fn lifts_current(names: Seq<Seq<char>>, current: Seq<char>) -> bool {
    current.len() > 0 && names.contains(current)
}

/// A folder's members without `x`.
pub open spec fn without(members: Seq<Seq<char>>, x: Seq<char>) -> Seq<Seq<char>>
    decreases members.len(),
{
    if members.len() == 0 {
        Seq::<Seq<char>>::empty()
    } else {
        let rest = without(members.drop_last(), x);
        if members.last() == x {
            rest
        } else {
            rest.push(members.last())
        }
    }
}

/// The members that are (or are not) pinned, in their order.
pub open spec fn pinned_part(members: Seq<Seq<char>>, pins: Seq<Seq<char>>, pinned: bool) -> Seq<
    Seq<char>,
>
    decreases members.len(),
{
    if members.len() == 0 {
        Seq::<Seq<char>>::empty()
    } else {
        let rest = pinned_part(members.drop_last(), pins, pinned);
        if pins.contains(members.last()) == pinned {
            rest.push(members.last())
        } else {
            rest
        }
    }
}

/// Pinned tasks rise inside their folder; the rest keep their order.
pub open spec fn pinned_first(members: Seq<Seq<char>>, pins: Seq<Seq<char>>) -> Seq<Seq<char>> {
    pinned_part(members, pins, true) + pinned_part(members, pins, false)
}

/// Putting the pinned members first keeps every member, once each.
proof fn lemma_pinned_first_same(members: Seq<Seq<char>>, pins: Seq<Seq<char>>)
    ensures
        pinned_first(members, pins).to_multiset() == members.to_multiset(),
        pinned_first(members, pins).len() == members.len(),
    decreases members.len(),
{
    broadcast use vstd::multiset::group_multiset_axioms;

    if members.len() == 0 {
        assert(pinned_first(members, pins) =~= Seq::<Seq<char>>::empty());
        assert(members =~= Seq::<Seq<char>>::empty());
    } else {
        let m = members.drop_last();
        let x = members.last();
        lemma_pinned_first_same(m, pins);
        let p = pinned_part(m, pins, true);
        let u = pinned_part(m, pins, false);
        assert(members =~= m.push(x));
        vstd::seq_lib::to_multiset_build(m, x);
        vstd::seq_lib::lemma_multiset_commutative(p, u);
        if pins.contains(x) {
            vstd::seq_lib::lemma_multiset_commutative(p.push(x), u);
            vstd::seq_lib::to_multiset_build(p, x);
            assert(pinned_first(members, pins).to_multiset() =~= members.to_multiset());
        } else {
            vstd::seq_lib::lemma_multiset_commutative(p, u.push(x));
            vstd::seq_lib::to_multiset_build(u, x);
            assert(pinned_first(members, pins).to_multiset() =~= members.to_multiset());
        }
    }
}

/// Two lists of groups with the same headings, in the same order, each
/// holding the same tasks.
pub open spec fn same_grouping(
    a: Seq<(Seq<char>, Seq<Seq<char>>)>,
    b: Seq<(Seq<char>, Seq<Seq<char>>)>,
) -> bool {
    &&& a.len() == b.len()
    &&& forall|k: int|
        0 <= k < a.len() ==> (#[trigger] a[k]).0 == b[k].0 && a[k].1.to_multiset()
            == b[k].1.to_multiset()
}

proof fn lemma_shown_folders_pins(
    groups: Seq<(Seq<char>, Seq<Seq<char>>)>,
    lifted: bool,
    current: Seq<char>,
    p1: Seq<Seq<char>>,
    p2: Seq<Seq<char>>,
)
    ensures
        same_grouping(
            shown_folders(groups, lifted, current, p1),
            shown_folders(groups, lifted, current, p2),
        ),
    decreases groups.len(),
{
    if groups.len() > 0 {
        lemma_shown_folders_pins(groups.drop_last(), lifted, current, p1, p2);
        let members = if lifted {
            without(groups.last().1, current)
        } else {
            groups.last().1
        };
        lemma_pinned_first_same(members, p1);
        lemma_pinned_first_same(members, p2);
        let r1 = shown_folders(groups.drop_last(), lifted, current, p1);
        let r2 = shown_folders(groups.drop_last(), lifted, current, p2);
        let a = shown_folders(groups, lifted, current, p1);
        let b = shown_folders(groups, lifted, current, p2);
        assert forall|k: int| 0 <= k < a.len() implies (#[trigger] a[k]).0 == b[k].0
            && a[k].1.to_multiset() == b[k].1.to_multiset() by {
            if k < r1.len() {
                assert(a[k] == r1[k]);
                assert(b[k] == r2[k]);
            }
        }
    }
}

/// The folders as the menu shows them: the current workspace taken out of
/// its folder when it is shown first, pinned tasks first, and empty folders
/// dropped.
pub open spec fn shown_folders(
    groups: Seq<(Seq<char>, Seq<Seq<char>>)>,
    lifted: bool,
    current: Seq<char>,
    pins: Seq<Seq<char>>,
) -> Seq<(Seq<char>, Seq<Seq<char>>)>
    decreases groups.len(),
{
    if groups.len() == 0 {
        Seq::<(Seq<char>, Seq<Seq<char>>)>::empty()
    } else {
        let rest = shown_folders(groups.drop_last(), lifted, current, pins);
        let members = if lifted {
            without(groups.last().1, current)
        } else {
            groups.last().1
        };
        let members = pinned_first(members, pins);
        if members.len() > 0 {
            rest.push((groups.last().0, members))
        } else {
            rest
        }
    }
}

/// The folders `group_workspaces` produces, as text.
pub open spec fn folder_groups(
    names: Seq<Seq<char>>,
    order: Seq<Seq<char>>,
    labels: NameMap<String>,
) -> Seq<(Seq<char>, Seq<Seq<char>>)> {
    let keys = group_keys(names, order);
    Seq::new(keys.len(), |k: int| (heading_of(keys[k], labels), group_members(names, keys, k)))
}

/// Every group the menu shows, in order: "here" first when the window is
/// somewhere, then the folders.
pub open spec fn menu_groups(
    held: Option<NameMap<Occupancy>>,
    known: Seq<Seq<char>>,
    cached: Seq<Seq<char>>,
    current: Seq<char>,
    order: Seq<Seq<char>>,
    labels: NameMap<String>,
    pins: Seq<Seq<char>>,
) -> Seq<(Seq<char>, Seq<Seq<char>>)> {
    let names = menu_names(held, known, cached, current);
    let lifted = lifts_current(names, current);
    let here = if lifted {
        seq![("here"@, seq![current])]
    } else {
        Seq::<(Seq<char>, Seq<Seq<char>>)>::empty()
    };
    here + shown_folders(folder_groups(names, order, labels), lifted, current, pins)
}

proof fn lemma_with_prefix_within(names: Seq<Seq<char>>, p: Seq<char>, x: Seq<char>)
    requires
        with_prefix(names, p).contains(x),
    ensures
        names.contains(x),
    decreases names.len(),
{
    if names.len() > 0 {
        let rest = with_prefix(names.drop_last(), p);
        if rest.contains(x) {
            lemma_with_prefix_within(names.drop_last(), p, x);
            let i = choose|i: int| 0 <= i < names.drop_last().len() && names.drop_last()[i] == x;
            assert(names[i] == x);
        } else {
            assert(names.last() == x);
            assert(names[names.len() - 1] == x);
        }
    }
}

proof fn lemma_without_within(members: Seq<Seq<char>>, y: Seq<char>, x: Seq<char>)
    requires
        without(members, y).contains(x),
    ensures
        members.contains(x),
    decreases members.len(),
{
    if members.len() > 0 {
        let rest = without(members.drop_last(), y);
        if rest.contains(x) {
            lemma_without_within(members.drop_last(), y, x);
            let i = choose|i: int| 0 <= i < members.drop_last().len() && members.drop_last()[i] == x;
            assert(members[i] == x);
        } else {
            assert(members[members.len() - 1] == x);
        }
    }
}

proof fn lemma_pinned_part_within(members: Seq<Seq<char>>, pins: Seq<Seq<char>>, pinned: bool, x: Seq<char>)
    requires
        pinned_part(members, pins, pinned).contains(x),
    ensures
        members.contains(x),
    decreases members.len(),
{
    if members.len() > 0 {
        let rest = pinned_part(members.drop_last(), pins, pinned);
        if rest.contains(x) {
            lemma_pinned_part_within(members.drop_last(), pins, pinned, x);
            let i = choose|i: int| 0 <= i < members.drop_last().len() && members.drop_last()[i] == x;
            assert(members[i] == x);
        } else {
            assert(members[members.len() - 1] == x);
        }
    }
}

/// Whatever a folder shows, it took from the folder it was given.
proof fn lemma_shown_within(
    groups: Seq<(Seq<char>, Seq<Seq<char>>)>,
    lifted: bool,
    current: Seq<char>,
    pins: Seq<Seq<char>>,
    names: Seq<Seq<char>>,
)
    requires
        forall|k: int, x: Seq<char>|
            0 <= k < groups.len() && #[trigger] groups[k].1.contains(x) ==> names.contains(x),
    ensures
        forall|k: int, x: Seq<char>|
            0 <= k < shown_folders(groups, lifted, current, pins).len()
                && #[trigger] shown_folders(groups, lifted, current, pins)[k].1.contains(x)
                ==> names.contains(x),
    decreases groups.len(),
{
    if groups.len() > 0 {
        let front = groups.drop_last();
        assert forall|k: int, x: Seq<char>|
            0 <= k < front.len() && #[trigger] front[k].1.contains(x) implies names.contains(x) by {
            assert(front[k] == groups[k]);
        }
        lemma_shown_within(front, lifted, current, pins, names);
        let last = groups[groups.len() - 1];
        let members = if lifted {
            without(last.1, current)
        } else {
            last.1
        };
        let rest = shown_folders(front, lifted, current, pins);
        let shown = shown_folders(groups, lifted, current, pins);
        assert forall|k: int, x: Seq<char>|
            0 <= k < shown.len() && #[trigger] shown[k].1.contains(x) implies names.contains(x) by {
            if k < rest.len() {
                assert(shown[k] == rest[k]);
            } else {
                let p = pinned_part(members, pins, true);
                let u = pinned_part(members, pins, false);
                assert(shown[k].1 == p + u);
                let i = choose|i: int| 0 <= i < (p + u).len() && (p + u)[i] == x;
                if i < p.len() {
                    assert(p[i] == x);
                    lemma_pinned_part_within(members, pins, true, x);
                } else {
                    assert(u[i - p.len()] == x);
                    lemma_pinned_part_within(members, pins, false, x);
                }
                if lifted {
                    lemma_without_within(last.1, current, x);
                }
                assert(last.1.contains(x));
            }
        }
    }
}

/// Every task the menu lists is one of its names.
proof fn lemma_tasks_within(
    held: Option<NameMap<Occupancy>>,
    known: Seq<Seq<char>>,
    cached: Seq<Seq<char>>,
    current: Seq<char>,
    order: Seq<Seq<char>>,
    labels: NameMap<String>,
    pins: Seq<Seq<char>>,
)
    ensures
        forall|k: int, x: Seq<char>|
            0 <= k < menu_groups(held, known, cached, current, order, labels, pins).len()
                && #[trigger] menu_groups(held, known, cached, current, order, labels, pins)[k].1.contains(x)
                ==> menu_names(held, known, cached, current).contains(x),
{
    let names = menu_names(held, known, cached, current);
    let lifted = lifts_current(names, current);
    let groups = folder_groups(names, order, labels);
    let keys = group_keys(names, order);
    assert forall|k: int, x: Seq<char>|
        0 <= k < groups.len() && #[trigger] groups[k].1.contains(x) implies names.contains(x) by {
        let members = group_members(names, keys, k);
        assert(groups[k].1 == members);
        if forall|j: int| 0 <= j < k ==> keys[j] != keys[k] {
            crate::text::lemma_sorted_contains(with_prefix(names, keys[k]), x);
            lemma_with_prefix_within(names, keys[k], x);
        } else {
            assert(members.len() == 0);
        }
    }
    lemma_shown_within(groups, lifted, current, pins, names);
    let here = if lifted {
        seq![("here"@, seq![current])]
    } else {
        Seq::<(Seq<char>, Seq<Seq<char>>)>::empty()
    };
    let all = menu_groups(held, known, cached, current, order, labels, pins);
    let shown = shown_folders(groups, lifted, current, pins);
    assert(all == here + shown);
    assert forall|k: int, x: Seq<char>|
        0 <= k < all.len() && #[trigger] all[k].1.contains(x) implies names.contains(x) by {
        if k < here.len() {
            assert(all[k] == ("here"@, seq![current]));
            assert(seq![current][0] == current);
        } else {
            assert(all[k] == shown[k - here.len()]);
        }
    }
}

proof fn lemma_group_tasks_within(gs: Seq<(Seq<char>, Seq<Seq<char>>)>, names: Seq<Seq<char>>, x: Seq<char>)
    requires
        forall|k: int, y: Seq<char>|
            0 <= k < gs.len() && #[trigger] gs[k].1.contains(y) ==> names.contains(y),
        group_tasks(gs).contains(x),
    ensures
        names.contains(x),
    decreases gs.len(),
{
    if gs.len() > 0 {
        let front = gs.drop_last();
        let last = gs[gs.len() - 1];
        let rest = group_tasks(front);
        assert(group_tasks(gs) == rest + last.1);
        let i = choose|i: int| 0 <= i < (rest + last.1).len() && (rest + last.1)[i] == x;
        if i < rest.len() {
            assert(rest[i] == x);
            assert forall|k: int, y: Seq<char>|
                0 <= k < front.len() && #[trigger] front[k].1.contains(y) implies names.contains(y) by {
                assert(front[k] == gs[k]);
            }
            lemma_group_tasks_within(front, names, x);
        } else {
            assert(last.1[i - rest.len()] == x);
            assert(gs[gs.len() - 1].1.contains(x));
        }
    }
}

/// Where trimming starts a text that has something other than space in it.
proof fn lemma_trim_first(s: Seq<char>)
    ensures
        crate::text::lead(s, crate::text::ws()) < s.len() ==> trim(s).len() > 0 && trim(s)[0]
            == s[crate::text::lead(s, crate::text::ws()) as int],
        crate::text::lead(s, crate::text::ws()) == s.len() ==> trim(s).len() == 0,
{
    let w = crate::text::ws();
    crate::text::lemma_lead_bounded(s, w);
    let d = crate::text::lead(s, w) as int;
    let t = s.skip(d);
    crate::text::lemma_trail_bounded(t, w);
    if d < s.len() {
        assert(t[0] == s[d]);
        if crate::text::trail(t, w) == t.len() {
            assert(w(t[0]));
        }
    }
}

proof fn lemma_lead_after_space(a: Seq<char>, b: Seq<char>)
    requires
        forall|k: int| 0 <= k < a.len() ==> crate::text::is_ws(#[trigger] a[k]),
    ensures
        crate::text::lead(a + b, crate::text::ws()) == a.len() + crate::text::lead(b, crate::text::ws()),
{
    let w = crate::text::ws();
    crate::text::lemma_lead_bounded(b, w);
    let i = (a.len() + crate::text::lead(b, w)) as int;
    assert forall|k: int| 0 <= k < i implies w(#[trigger] (a + b)[k]) by {
        if k >= a.len() {
            assert((a + b)[k] == b[k - a.len()]);
        }
    }
    if i < (a + b).len() {
        assert((a + b)[i] == b[crate::text::lead(b, w) as int]);
    }
    crate::text::lemma_lead_is(a + b, w, i);
}

/// Whether a name, read as a line of the menu, would look like a heading or
/// the new-workspace row: its first visible character is the rule `─` or the
/// `＋`.
pub open spec fn reads_as_menu_line(name: Seq<char>) -> bool {
    let t = trim_start(name);
    t.len() > 0 && (t[0] == '─' || t[0] == '＋')
}

/// A task's line, trimmed, never starts like a heading or the new-workspace
/// row unless the name itself does.
proof fn lemma_label_not_menu_line(name: Seq<char>, held: Option<NameMap<Occupancy>>, current: Seq<char>)
    requires
        !reads_as_menu_line(name),
    ensures
        !(trim(task_label(name, held, current)).len() > 0 && (trim(task_label(name, held, current))[0]
            == '─' || trim(task_label(name, held, current))[0] == '＋')),
{
    let w = crate::text::ws();
    let label = task_label(name, held, current);
    lemma_trim_first(label);
    reveal_strlit("●");
    reveal_strlit("    ");
    reveal_strlit("  (");
    reveal_strlit("  ");
    if name == current {
        assert(label[0] == '●');
        crate::text::lemma_lead_is(label, w, 0);
    } else {
        let tail = match held_at(held, name) {
            Some(o) => "  ("@ + decimal(o.count as nat) + ")"@,
            None => Seq::<char>::empty(),
        };
        assert(label =~= "    "@ + (name + tail));
        lemma_lead_after_space("    "@, name + tail);
        crate::text::lemma_lead_bounded(name, w);
        let d = crate::text::lead(name, w) as int;
        if d < name.len() {
            assert forall|k: int| 0 <= k < d implies w(#[trigger] (name + tail)[k]) by {
                assert((name + tail)[k] == name[k]);
            }
            assert((name + tail)[d] == name[d]);
            crate::text::lemma_lead_is(name + tail, w, d);
            assert(trim_start(name)[0] == name[d]);
        } else {
            assert forall|k: int| 0 <= k < name.len() implies crate::text::is_ws(#[trigger] name[k]) by {}
            lemma_lead_after_space(name, tail);
            if tail.len() > 0 {
                assert(tail[2] == '(');
                assert(w(tail[0]) && w(tail[1]));
                crate::text::lemma_lead_is(tail, w, 2);
                assert(label[(4 + name.len() + 2) as int] == '(');
            }
        }
    }
}

/// Headings name no workspace, and neither does the new-workspace row, so
/// picking one moves nothing — as long as no name the menu lists itself reads
/// like one of those lines.
pub proof fn lemma_headings_name_no_task(
    held: Option<NameMap<Occupancy>>,
    known: Seq<Seq<char>>,
    cached: Seq<Seq<char>>,
    current: Seq<char>,
    order: Seq<Seq<char>>,
    labels: NameMap<String>,
    pins: Seq<Seq<char>>,
    back: NameMap<String>,
)
    requires
        forall|x: Seq<char>|
            menu_names(held, known, cached, current).contains(x) ==> !#[trigger] reads_as_menu_line(x),
        back_matches(back, group_tasks(menu_groups(held, known, cached, current, order, labels, pins)), held, current),
    ensures
        forall|k: int|
            0 <= k < menu_groups(held, known, cached, current, order, labels, pins).len() ==> !back.has(
                heading_line(#[trigger] menu_groups(held, known, cached, current, order, labels, pins)[k].0),
            ),
        !back.has(NEW@),
{
    let groups = menu_groups(held, known, cached, current, order, labels, pins);
    let names = menu_names(held, known, cached, current);
    let tasks = group_tasks(groups);
    lemma_tasks_within(held, known, cached, current, order, labels, pins);
    reveal_strlit("──────");
    reveal_strlit("＋  new workspace…");
    // No task's trimmed line starts with the rule or the plus.
    assert forall|i: int| 0 <= i < tasks.len() implies !(trim(task_label(#[trigger] tasks[i], held, current)).len() > 0
        && (trim(task_label(tasks[i], held, current))[0] == '─' || trim(task_label(tasks[i], held, current))[0] == '＋')) by {
        assert(tasks.contains(tasks[i]));
        lemma_group_tasks_within(groups, names, tasks[i]);
        lemma_label_not_menu_line(tasks[i], held, current);
    }
    assert forall|k: int| 0 <= k < groups.len() implies !back.has(heading_line(#[trigger] groups[k].0)) by {
        let h = heading_line(groups[k].0);
        assert(h[0] == '─');
        if back.has(h) {
            let i = choose|i: int| 0 <= i < tasks.len() && trim(task_label(tasks[i], held, current)) == h;
            assert(trim(task_label(tasks[i], held, current))[0] == '─');
        }
    }
    if back.has(NEW@) {
        let i = choose|i: int| 0 <= i < tasks.len() && trim(task_label(tasks[i], held, current)) == NEW@;
        assert(NEW@[0] == '＋');
        assert(trim(task_label(tasks[i], held, current))[0] == '＋');
    }
}

/// The workspace the window is in is always offered, first, under "here" —
/// even one nothing else knows about.
pub proof fn lemma_current_offered_first(
    held: Option<NameMap<Occupancy>>,
    known: Seq<Seq<char>>,
    cached: Seq<Seq<char>>,
    current: Seq<char>,
    order: Seq<Seq<char>>,
    labels: NameMap<String>,
    pins: Seq<Seq<char>>,
)
    requires
        current.len() > 0,
    ensures
        menu_groups(held, known, cached, current, order, labels, pins)[0] == ("here"@, seq![current]),
{
    let occupied = match held {
        Some(h) => h.keys(),
        None => Seq::<Seq<char>>::empty(),
    };
    let all = occupied + known + cached + seq![current];
    assert(all.last() == current);
    let rest = distinct_names(all.drop_last());
    if !rest.contains(current) {
        assert(distinct_names(all) == rest.push(current));
        assert(distinct_names(all)[rest.len() as int] == current);
    }
    assert(menu_names(held, known, cached, current).contains(current));
}

/// Pinning only reorders tasks within their folders: whatever is pinned, the
/// menu shows the same groups, with the same headings in the same order, each
/// holding the same tasks.
pub proof fn lemma_pins_keep_grouping(
    held: Option<NameMap<Occupancy>>,
    known: Seq<Seq<char>>,
    cached: Seq<Seq<char>>,
    current: Seq<char>,
    order: Seq<Seq<char>>,
    labels: NameMap<String>,
    pins: Seq<Seq<char>>,
    other_pins: Seq<Seq<char>>,
)
    ensures
        same_grouping(
            menu_groups(held, known, cached, current, order, labels, pins),
            menu_groups(held, known, cached, current, order, labels, other_pins),
        ),
{
    let names = menu_names(held, known, cached, current);
    let lifted = lifts_current(names, current);
    let groups = folder_groups(names, order, labels);
    lemma_shown_folders_pins(groups, lifted, current, pins, other_pins);
    let here = if lifted {
        seq![("here"@, seq![current])]
    } else {
        Seq::<(Seq<char>, Seq<Seq<char>>)>::empty()
    };
    let a = menu_groups(held, known, cached, current, order, labels, pins);
    let b = menu_groups(held, known, cached, current, order, labels, other_pins);
    let fa = shown_folders(groups, lifted, current, pins);
    let fb = shown_folders(groups, lifted, current, other_pins);
    assert(a == here + fa);
    assert(b == here + fb);
    assert forall|k: int| 0 <= k < a.len() implies (#[trigger] a[k]).0 == b[k].0
        && a[k].1.to_multiset() == b[k].1.to_multiset() by {
        if k >= here.len() {
            assert(a[k] == fa[k - here.len()]);
            assert(b[k] == fb[k - here.len()]);
        }
    }
}

pub open spec fn heading_line(heading: Seq<char>) -> Seq<char> {
    SEP@ + "  "@ + heading + "  "@ + SEP@
}

/// How a task reads in the flat list: where the window is now, how many
/// windows a workspace holds, or nothing for a task holding none.
pub open spec fn task_label(
    name: Seq<char>,
    held: Option<NameMap<Occupancy>>,
    current: Seq<char>,
) -> Seq<char> {
    if name == current {
        HERE@ + "  "@ + name + "  (this window is here)"@
    } else {
        match held_at(held, name) {
            Some(o) => "    "@ + name + "  ("@ + decimal(o.count as nat) + ")"@,
            None => "    "@ + name,
        }
    }
}

/// A task's row.
pub open spec fn task_row(
    name: Seq<char>,
    heading: Seq<char>,
    held: Option<NameMap<Occupancy>>,
    current: Seq<char>,
    pins: Seq<Seq<char>>,
) -> RowView {
    RowView {
        id: name,
        label: name,
        section: Some(heading),
        count: match held_at(held, name) {
            Some(o) => Some(o.count),
            None => None,
        },
        marker: if name == current {
            Some("here"@)
        } else {
            None
        },
        pinned: pins.contains(name),
        detail: None,
        active: false,
        bundle: None,
        stack: match held_at(held, name) {
            Some(o) => views(o.stack@),
            None => Seq::<Seq<char>>::empty(),
        },
    }
}

/// The flat lines of the groups: each heading, then its tasks.
pub open spec fn group_items(
    groups: Seq<(Seq<char>, Seq<Seq<char>>)>,
    held: Option<NameMap<Occupancy>>,
    current: Seq<char>,
) -> Seq<Seq<char>>
    decreases groups.len(),
{
    if groups.len() == 0 {
        Seq::<Seq<char>>::empty()
    } else {
        group_items(groups.drop_last(), held, current) + seq![heading_line(groups.last().0)]
            + groups.last().1.map_values(|n: Seq<char>| task_label(n, held, current))
    }
}

/// The rows of the groups, one per task.
pub open spec fn group_rows(
    groups: Seq<(Seq<char>, Seq<Seq<char>>)>,
    held: Option<NameMap<Occupancy>>,
    current: Seq<char>,
    pins: Seq<Seq<char>>,
) -> Seq<RowView>
    decreases groups.len(),
{
    if groups.len() == 0 {
        Seq::<RowView>::empty()
    } else {
        group_rows(groups.drop_last(), held, current, pins) + groups.last().1.map_values(
            |n: Seq<char>| task_row(n, groups.last().0, held, current, pins),
        )
    }
}

/// Every task of the groups, in order.
pub open spec fn group_tasks(groups: Seq<(Seq<char>, Seq<Seq<char>>)>) -> Seq<Seq<char>>
    decreases groups.len(),
{
    if groups.len() == 0 {
        Seq::<Seq<char>>::empty()
    } else {
        group_tasks(groups.drop_last()) + groups.last().1
    }
}

pub struct Menu {
    pub items: Vec<String>,
    pub rows: Vec<Row>,
    /// Which tasks are pinned, so the front end can mark them.
    pub pinned: Vec<String>,
    /// Chosen line back to a workspace name, keyed on the *trimmed* label:
    /// `osascript` strips whitespace from what it returns.
    pub back: NameMap<String>,
}

/// What `back` says: a trimmed label leads to the last task shown under it.
pub open spec fn back_matches(
    back: NameMap<String>,
    tasks: Seq<Seq<char>>,
    held: Option<NameMap<Occupancy>>,
    current: Seq<char>,
) -> bool {
    &&& forall|x: Seq<char>|
        #[trigger] back.has(x) <==> exists|k: int|
            0 <= k < tasks.len() && trim(task_label(tasks[k], held, current)) == x
    &&& forall|x: Seq<char>|
        #[trigger] back.has(x) ==> exists|k: int|
            0 <= k < tasks.len() && trim(task_label(tasks[k], held, current)) == x && back.lookup(
                x,
            ).unwrap()@ == tasks[k] && forall|j: int|
                k < j < tasks.len() ==> trim(task_label(tasks[j], held, current)) != x
}


/// The occupancy map behind an optional reference, as a value.
pub open spec fn held_value(held: Option<&NameMap<Occupancy>>) -> Option<NameMap<Occupancy>> {
    match held {
        Some(h) => Some(*h),
        None => None,
    }
}

fn held_get<'a>(held: Option<&'a NameMap<Occupancy>>, name: &str) -> (r: Option<&'a Occupancy>)
    ensures
        match r {
            Some(o) => held_at(held_value(held), name@) == Some(*o),
            None => held_at(held_value(held), name@) is None,
        },
{
    match held {
        Some(h) => h.get(name),
        None => None,
    }
}

fn distinct_names_exec(all: &Vec<String>) -> (r: Vec<String>)
    ensures
        views(r@) == distinct_names(views(all@)),
{
    let mut r: Vec<String> = Vec::new();
    let mut i: usize = 0;
    while i < all.len()
        invariant
            i <= all@.len(),
            views(r@) == distinct_names(views(all@).take(i as int)),
        decreases all.len() - i,
    {
        proof {
            assert(views(all@).take(i + 1).drop_last() =~= views(all@).take(i as int));
        }
        let name = &all[i];
        if !name.as_str().is_empty() && !contains_text_in(r.as_slice(), name.as_str()) {
            let ghost before = r@;
            r.push(copy_text(name));
            assert(views(r@) =~= views(before).push(name@));
        }
        i += 1;
    }
    assert(views(all@).take(all@.len() as int) =~= views(all@));
    r
}

fn without_exec(members: &Vec<String>, x: &str) -> (r: Vec<String>)
    ensures
        views(r@) == without(views(members@), x@),
{
    let mut r: Vec<String> = Vec::new();
    let mut i: usize = 0;
    while i < members.len()
        invariant
            i <= members@.len(),
            views(r@) == without(views(members@).take(i as int), x@),
        decreases members.len() - i,
    {
        proof {
            assert(views(members@).take(i + 1).drop_last() =~= views(members@).take(i as int));
        }
        if !same_text(members[i].as_str(), x) {
            let ghost before = r@;
            r.push(copy_text(&members[i]));
            assert(views(r@) =~= views(before).push(members@[i as int]@));
        }
        i += 1;
    }
    assert(views(members@).take(members@.len() as int) =~= views(members@));
    r
}

fn pinned_part_exec(members: &Vec<String>, pins: &[String], pinned: bool) -> (r: Vec<String>)
    ensures
        views(r@) == pinned_part(views(members@), views(pins@), pinned),
{
    let mut r: Vec<String> = Vec::new();
    let mut i: usize = 0;
    while i < members.len()
        invariant
            i <= members@.len(),
            views(r@) == pinned_part(views(members@).take(i as int), views(pins@), pinned),
        decreases members.len() - i,
    {
        proof {
            assert(views(members@).take(i + 1).drop_last() =~= views(members@).take(i as int));
        }
        if contains_text_in(pins, members[i].as_str()) == pinned {
            let ghost before = r@;
            r.push(copy_text(&members[i]));
            assert(views(r@) =~= views(before).push(members@[i as int]@));
        }
        i += 1;
    }
    assert(views(members@).take(members@.len() as int) =~= views(members@));
    r
}

fn pinned_first_exec(members: &Vec<String>, pins: &[String]) -> (r: Vec<String>)
    ensures
        views(r@) == pinned_first(views(members@), views(pins@)),
{
    let mut r = pinned_part_exec(members, pins, true);
    let rest = pinned_part_exec(members, pins, false);
    let mut i: usize = 0;
    let ghost first = views(r@);
    while i < rest.len()
        invariant
            i <= rest@.len(),
            views(r@) == first + views(rest@).take(i as int),
        decreases rest.len() - i,
    {
        let ghost before = r@;
        r.push(copy_text(&rest[i]));
        assert(views(r@) =~= views(before).push(rest@[i as int]@));
        assert(views(rest@).take(i + 1) =~= views(rest@).take(i as int).push(rest@[i as int]@));
        i += 1;
    }
    assert(views(rest@).take(rest@.len() as int) =~= views(rest@));
    r
}

fn task_label_exec(name: &str, held: Option<&NameMap<Occupancy>>, current: &str) -> (r: String)
    ensures
        r@ == task_label(name@, held_value(held), current@),
{
    let n = chars_of(name);
    let mut line: Vec<char>;
    if same_text(name, current) {
        line = concat_chars(chars_of(HERE).as_slice(), chars_of("  ").as_slice());
        append_chars(&mut line, n.as_slice());
        append_chars(&mut line, chars_of("  (this window is here)").as_slice());
    } else {
        line = chars_of("    ");
        append_chars(&mut line, n.as_slice());
        match held_get(held, name) {
            Some(o) => {
                append_chars(&mut line, chars_of("  (").as_slice());
                append_chars(&mut line, decimal_chars(o.count).as_slice());
                append_chars(&mut line, chars_of(")").as_slice());
            },
            None => {},
        }
    }
    string_of(line.as_slice())
}

fn task_row_exec(
    name: &str,
    heading: &str,
    held: Option<&NameMap<Occupancy>>,
    current: &str,
    pins: &[String],
) -> (r: Row)
    ensures
        r@ == task_row(name@, heading@, held_value(held), current@, views(pins@)),
{
    let found = held_get(held, name);
    let r = Row {
        id: owned(name),
        label: owned(name),
        section: Some(owned(heading)),
        count: match found {
            Some(o) => Some(o.count),
            None => None,
        },
        marker: if same_text(name, current) {
            Some(owned("here"))
        } else {
            None
        },
        pinned: contains_text_in(pins, name),
        detail: None,
        active: false,
        bundle: None,
        stack: match found {
            Some(o) => copy_texts(&o.stack),
            None => Vec::new(),
        },
    };
    proof {
        if found is None {
            assert(views(r.stack@) =~= Seq::<Seq<char>>::empty());
        }
    }
    r
}

proof fn lemma_back_grows(
    back: NameMap<String>,
    next: NameMap<String>,
    tasks: Seq<Seq<char>>,
    name: Seq<char>,
    held: Option<NameMap<Occupancy>>,
    current: Seq<char>,
)
    requires
        back_matches(back, tasks, held, current),
        forall|x: Seq<char>|
            #[trigger] next.has(x) <==> (back.has(x) || x == trim(task_label(name, held, current))),
        next.lookup(trim(task_label(name, held, current))) matches Some(v) && v@ == name,
        forall|x: Seq<char>|
            x != trim(task_label(name, held, current)) ==> #[trigger] next.lookup(x) == back.lookup(
                x,
            ),
    ensures
        back_matches(next, tasks.push(name), held, current),
{
    let t = tasks.push(name);
    let key = trim(task_label(name, held, current));
    assert forall|x: Seq<char>| #[trigger] next.has(x) <==> exists|k: int|
        0 <= k < t.len() && trim(task_label(t[k], held, current)) == x by {
        if next.has(x) && x != key {
            assert(back.has(x));
            let k = choose|k: int|
                0 <= k < tasks.len() && trim(task_label(tasks[k], held, current)) == x;
            assert(t[k] == tasks[k]);
        }
        if next.has(x) && x == key {
            assert(t[tasks.len() as int] == name);
        }
        if exists|k: int| 0 <= k < t.len() && trim(task_label(t[k], held, current)) == x {
            let k = choose|k: int| 0 <= k < t.len() && trim(task_label(t[k], held, current)) == x;
            if k < tasks.len() {
                assert(t[k] == tasks[k]);
                assert(back.has(x));
            }
        }
    }
    assert forall|x: Seq<char>| #[trigger] next.has(x) implies exists|k: int|
        0 <= k < t.len() && trim(task_label(t[k], held, current)) == x && next.lookup(
            x,
        ).unwrap()@ == t[k] && forall|j: int|
            k < j < t.len() ==> trim(task_label(t[j], held, current)) != x by {
        if x == key {
            let k = tasks.len() as int;
            assert(t[k] == name);
        } else {
            assert(back.has(x));
            let k = choose|k: int|
                0 <= k < tasks.len() && trim(task_label(tasks[k], held, current)) == x
                    && back.lookup(x).unwrap()@ == tasks[k] && forall|j: int|
                    k < j < tasks.len() ==> trim(task_label(tasks[j], held, current)) != x;
            assert(t[k] == tasks[k]);
            assert forall|j: int| k < j < t.len() implies trim(task_label(t[j], held, current))
                != x by {
                if j < tasks.len() {
                    assert(t[j] == tasks[j]);
                }
            }
        }
    }
}

/// Build the dialog list.
///
/// `held` is `None` when the workspace query failed — then no counts and no
/// icons are shown at all, because a guessed number is worse than none and a
/// guessed stack is worse than a guessed number.
pub fn build_menu(
    held: Option<&NameMap<Occupancy>>,
    known: &[String],
    cached: &[String],
    current: &str,
    order: &[String],
    labels: &NameMap<String>,
    pins: &[String],
) -> (m: Menu)
    ensures
        ({
            let hv = held_value(held);
            let groups = menu_groups(
                hv,
                views(known@),
                views(cached@),
                current@,
                views(order@),
                *labels,
                views(pins@),
            );
            &&& views(m.items@) == seq![NEW@] + group_items(groups, hv, current@)
            &&& row_views(m.rows@) == seq![Row::action_view(NEW@, NEW@)] + group_rows(
                groups,
                hv,
                current@,
                views(pins@),
            )
            &&& views(m.pinned@) == views(pins@)
            &&& back_matches(m.back, group_tasks(groups), hv, current@)
        }),
{
    let ghost hv = held_value(held);
    let ghost groups = menu_groups(
        hv,
        views(known@),
        views(cached@),
        current@,
        views(order@),
        *labels,
        views(pins@),
    );
    // Every name, each once.
    let mut all: Vec<String> = match held {
        Some(h) => h.names(),
        None => Vec::new(),
    };
    let ghost occupied = views(all@);
    let mut i: usize = 0;
    while i < known.len()
        invariant
            i <= known@.len(),
            views(all@) == occupied + views(known@).take(i as int),
        decreases known.len() - i,
    {
        let ghost before = all@;
        all.push(copy_text(&known[i]));
        assert(views(all@) =~= views(before).push(known@[i as int]@));
        assert(views(known@).take(i + 1) =~= views(known@).take(i as int).push(known@[i as int]@));
        i += 1;
    }
    assert(views(known@).take(known@.len() as int) =~= views(known@));
    let mut c: usize = 0;
    while c < cached.len()
        invariant
            c <= cached@.len(),
            views(all@) == occupied + views(known@) + views(cached@).take(c as int),
        decreases cached.len() - c,
    {
        let ghost before = all@;
        all.push(copy_text(&cached[c]));
        assert(views(all@) =~= views(before).push(cached@[c as int]@));
        assert(views(cached@).take(c + 1) =~= views(cached@).take(c as int).push(
            cached@[c as int]@,
        ));
        c += 1;
    }
    assert(views(cached@).take(cached@.len() as int) =~= views(cached@));
    let ghost before_current = all@;
    all.push(owned(current));
    assert(views(all@) =~= views(before_current).push(current@));
    let names = distinct_names_exec(&all);
    proof {
        assert(views(all@) =~= (match hv {
            Some(h) => h.keys(),
            None => Seq::<Seq<char>>::empty(),
        }) + views(known@) + views(cached@) + seq![current@]);
        assert(views(names@) == menu_names(
            hv,
            views(known@),
            views(cached@),
            current@,
        ));
    }
    let lifted = !current.is_empty() && contains_text_in(names.as_slice(), current);
    // Where you are comes first, always; then the folders.
    let folders = group_workspaces(names.as_slice(), order, labels);
    let ghost fg = folder_groups(views(names@), views(order@), *labels);
    let mut grouped: Vec<(String, Vec<String>)> = Vec::new();
    if lifted {
        let mut only: Vec<String> = Vec::new();
        only.push(owned(current));
        assert(views(only@) =~= seq![current@]);
        grouped.push((owned("here"), only));
    }
    let ghost here_part = if lifted {
        seq![("here"@, seq![current@])]
    } else {
        Seq::<(Seq<char>, Seq<Seq<char>>)>::empty()
    };
    proof {
        assert(grouped@.map_values(|g: (String, Vec<String>)| (g.0@, views(g.1@))) =~= here_part);
    }
    let mut f: usize = 0;
    while f < folders.len()
        invariant
            f <= folders@.len(),
            folders@.len() == fg.len(),
            fg == folder_groups(views(names@), views(order@), *labels),
            forall|k: int|
                0 <= k < folders@.len() ==> (#[trigger] folders@[k]).0@ == fg[k].0 && views(
                    folders@[k].1@,
                ) == fg[k].1,
            grouped@.map_values(|g: (String, Vec<String>)| (g.0@, views(g.1@))) == here_part
                + shown_folders(fg.take(f as int), lifted, current@, views(pins@)),
        decreases folders.len() - f,
    {
        proof {
            assert(fg.take(f + 1).drop_last() =~= fg.take(f as int));
        }
        let kept = if lifted {
            without_exec(&folders[f].1, current)
        } else {
            copy_texts(&folders[f].1)
        };
        let members = pinned_first_exec(&kept, pins);
        if members.len() > 0 {
            let ghost before = grouped@;
            grouped.push((copy_text(&folders[f].0), members));
            assert(grouped@.map_values(|g: (String, Vec<String>)| (g.0@, views(g.1@)))
                =~= before.map_values(|g: (String, Vec<String>)| (g.0@, views(g.1@))).push(
                (folders@[f as int].0@, views(members@)),
            ));
        }
        f += 1;
    }
    assert(fg.take(folders@.len() as int) =~= fg);
    assert(grouped_views(grouped@) == groups);
    let (items, rows, back) = emit_groups(&grouped, held, current, pins);
    Menu { items, rows, back, pinned: copy_texts_slice(pins) }
}

/// Every group as view text.
pub open spec fn grouped_views(grouped: Seq<(String, Vec<String>)>) -> Seq<
    (Seq<char>, Seq<Seq<char>>),
> {
    grouped.map_values(|g: (String, Vec<String>)| (g.0@, views(g.1@)))
}

fn add_task(
    items: &mut Vec<String>,
    rows: &mut Vec<Row>,
    back: &mut NameMap<String>,
    name: &String,
    heading: &String,
    held: Option<&NameMap<Occupancy>>,
    current: &str,
    pins: &[String],
)
    ensures
        views(final(items)@) == views(old(items)@).push(
            task_label(name@, held_value(held), current@),
        ),
        row_views(final(rows)@) == row_views(old(rows)@).push(
            task_row(name@, heading@, held_value(held), current@, views(pins@)),
        ),
        forall|x: Seq<char>|
            #[trigger] final(back).has(x) <==> (old(back).has(x) || x == trim(
                task_label(name@, held_value(held), current@),
            )),
        final(back).lookup(trim(task_label(name@, held_value(held), current@))) matches Some(v)
            && v@ == name@,
        forall|x: Seq<char>|
            x != trim(task_label(name@, held_value(held), current@))
                ==> #[trigger] final(back).lookup(x) == old(back).lookup(x),
{
    let label = task_label_exec(name.as_str(), held, current);
    let row = task_row_exec(name.as_str(), heading.as_str(), held, current, pins);
    let key = string_of(trim_chars(chars_of(label.as_str()).as_slice()).as_slice());
    let ghost it = items@;
    let ghost rw = rows@;
    items.push(copy_text(&label));
    rows.push(row);
    back.insert(key, copy_text(name));
    assert(views(items@) =~= views(it).push(label@));
    assert(row_views(rows@) =~= row_views(rw).push(row@));
}

fn emit_groups(
    grouped: &Vec<(String, Vec<String>)>,
    held: Option<&NameMap<Occupancy>>,
    current: &str,
    pins: &[String],
) -> (r: (Vec<String>, Vec<Row>, NameMap<String>))
    ensures
        ({
            let gv = grouped_views(grouped@);
            let hv = held_value(held);
            &&& views(r.0@) == seq![NEW@] + group_items(gv, hv, current@)
            &&& row_views(r.1@) == seq![Row::action_view(NEW@, NEW@)] + group_rows(
                gv,
                hv,
                current@,
                views(pins@),
            )
            &&& back_matches(r.2, group_tasks(gv), hv, current@)
        }),
{
    let ghost gv = grouped_views(grouped@);
    let ghost hv = held_value(held);
    let mut items: Vec<String> = Vec::new();
    items.push(owned(NEW));
    let mut rows: Vec<Row> = Vec::new();
    rows.push(Row::action(NEW, NEW));
    let mut back: NameMap<String> = NameMap::new();
    let mut g: usize = 0;
    proof {
        assert(views(items@) =~= seq![NEW@] + group_items(gv.take(0), hv, current@));
        assert(row_views(rows@) =~= seq![Row::action_view(NEW@, NEW@)] + group_rows(
            gv.take(0),
            hv,
            current@,
            views(pins@),
        ));
        assert(group_tasks(gv.take(0)) =~= Seq::<Seq<char>>::empty());
    }
    while g < grouped.len()
        invariant
            g <= grouped@.len(),
            gv == grouped_views(grouped@),
            hv == held_value(held),
            views(items@) == seq![NEW@] + group_items(gv.take(g as int), hv, current@),
            row_views(rows@) == seq![Row::action_view(NEW@, NEW@)] + group_rows(
                gv.take(g as int),
                hv,
                current@,
                views(pins@),
            ),
            back_matches(back, group_tasks(gv.take(g as int)), hv, current@),
        decreases grouped.len() - g,
    {
        let heading = &grouped[g].0;
        let members = &grouped[g].1;
        let ghost items0 = views(items@);
        let ghost rows0 = row_views(rows@);
        let ghost tasks0 = group_tasks(gv.take(g as int));
        let mut line = concat_chars(chars_of(SEP).as_slice(), chars_of("  ").as_slice());
        append_chars(&mut line, chars_of(heading.as_str()).as_slice());
        append_chars(&mut line, chars_of("  ").as_slice());
        append_chars(&mut line, chars_of(SEP).as_slice());
        items.push(string_of(line.as_slice()));
        let ghost items1 = views(items@);
        assert(items1 =~= items0.push(heading_line(heading@)));
        let mut k: usize = 0;
        proof {
            let mv = views(members@);
            assert(mv.take(0).map_values(|n: Seq<char>| task_label(n, hv, current@)) =~= Seq::<
                Seq<char>,
            >::empty());
            assert(mv.take(0).map_values(
                |n: Seq<char>| task_row(n, heading@, hv, current@, views(pins@)),
            ) =~= Seq::<RowView>::empty());
            assert(tasks0 + mv.take(0) =~= tasks0);
        }
        while k < members.len()
            invariant
                k <= members@.len(),
                hv == held_value(held),
                views(items@) == items1 + views(members@).take(k as int).map_values(
                    |n: Seq<char>| task_label(n, hv, current@),
                ),
                row_views(rows@) == rows0 + views(members@).take(k as int).map_values(
                    |n: Seq<char>| task_row(n, heading@, hv, current@, views(pins@)),
                ),
                back_matches(back, tasks0 + views(members@).take(k as int), hv, current@),
            decreases members.len() - k,
        {
            let name = &members[k];
            let ghost back0 = back;
            add_task(&mut items, &mut rows, &mut back, name, heading, held, current, pins);
            proof {
                let mv = views(members@);
                assert(mv.take(k + 1) =~= mv.take(k as int).push(name@));
                assert(mv.take(k + 1).map_values(|n: Seq<char>| task_label(n, hv, current@))
                    =~= mv.take(k as int).map_values(|n: Seq<char>| task_label(n, hv, current@)).push(
                    task_label(name@, hv, current@),
                ));
                assert(mv.take(k + 1).map_values(
                    |n: Seq<char>| task_row(n, heading@, hv, current@, views(pins@)),
                ) =~= mv.take(k as int).map_values(
                    |n: Seq<char>| task_row(n, heading@, hv, current@, views(pins@)),
                ).push(task_row(name@, heading@, hv, current@, views(pins@))));
                lemma_back_grows(back0, back, tasks0 + mv.take(k as int), name@, hv, current@);
                assert(tasks0 + mv.take(k + 1) =~= (tasks0 + mv.take(k as int)).push(name@));
            }
            k += 1;
        }
        proof {
            let mv = views(members@);
            assert(mv.take(mv.len() as int) =~= mv);
            assert(gv.take(g + 1).drop_last() =~= gv.take(g as int));
            assert(gv.take(g + 1).last() == gv[g as int]);
            assert(gv[g as int] == (heading@, mv));
        }
        g += 1;
    }
    assert(gv.take(grouped@.len() as int) =~= gv);
    (items, rows, back)
}

fn copy_texts_slice(v: &[String]) -> (r: Vec<String>)
    ensures
        views(r@) == views(v@),
{
    let mut r: Vec<String> = Vec::new();
    let mut i: usize = 0;
    while i < v.len()
        invariant
            i <= v@.len(),
            views(r@) == views(v@).take(i as int),
        decreases v.len() - i,
    {
        let ghost before = r@;
        r.push(copy_text(&v[i]));
        assert(views(r@) =~= views(before).push(v@[i as int]@));
        assert(views(v@).take(i + 1) =~= views(v@).take(i as int).push(v@[i as int]@));
        i += 1;
    }
    assert(views(v@).take(v@.len() as int) =~= views(v@));
    r
}

impl Menu {
    /// The workspace a chosen line names, if it names one. Headings and the
    /// "new workspace" entry deliberately name nothing.
    pub fn workspace_for(&self, choice: &str) -> (r: Option<&String>)
        ensures
            match r {
                Some(w) => self.back.lookup(trim(choice@)) == Some(*w),
                None => self.back.lookup(trim(choice@)) is None,
            },
    {
        let key = string_of(trim_chars(chars_of(choice).as_slice()).as_slice());
        self.back.get(key.as_str())
    }
}


// ---------------------------------------------------------------------------
// The window list
// ---------------------------------------------------------------------------

/// What a window's row says: the tab's own title, or the application for an
/// untitled window.
pub open spec fn shown_name(w: Window) -> Seq<char> {
    if w.title@.len() == 0 {
        w.app@
    } else {
        tab_title_text(w.app@, w.title@)
    }
}

/// What two windows must share to need their ids shown.
pub open spec fn seen_key(w: Window) -> Seq<char> {
    w.app@ + "|"@ + shown_name(w)
}

pub open spec fn times_seen(all: Seq<Window>, key: Seq<char>) -> nat
    decreases all.len(),
{
    if all.len() == 0 {
        0
    } else {
        times_seen(all.drop_last(), key) + if seen_key(all.last()) == key {
            1nat
        } else {
            0nat
        }
    }
}

/// The row text of a window: shortened, and with its id where another window
/// would read the same.
pub open spec fn window_shown(w: Window, all: Seq<Window>) -> Seq<char> {
    let label = shortened(shown_name(w), 64);
    if times_seen(all, seen_key(w)) > 1 {
        label + "  ["@ + w.id@ + "]"@
    } else {
        label
    }
}

pub open spec fn has_workspace(all: Seq<Window>, x: Seq<char>) -> bool {
    exists|i: int| 0 <= i < all.len() && #[trigger] all[i].workspace@ == x
}

/// Every workspace some window is in, alphabetically, each once.
pub open spec fn workspace_names(all: Seq<Window>) -> Seq<Seq<char>> {
    choose|r: Seq<Seq<char>>|
        strictly_sorted(r) && forall|x: Seq<char>| #[trigger] r.contains(x) <==> has_workspace(all, x)
}

/// The order the workspaces are listed in: `first` at the top when any
/// window is in it, the rest alphabetically.
pub open spec fn window_group_order(all: Seq<Window>, first: Seq<char>) -> Seq<Seq<char>> {
    if has_workspace(all, first) {
        seq![first] + without(workspace_names(all), first)
    } else {
        workspace_names(all)
    }
}

/// The windows in one workspace, in the order given.
pub open spec fn in_workspace(all: Seq<Window>, x: Seq<char>) -> Seq<Window>
    decreases all.len(),
{
    if all.len() == 0 {
        Seq::<Window>::empty()
    } else {
        let rest = in_workspace(all.drop_last(), x);
        if all.last().workspace@ == x {
            rest.push(all.last())
        } else {
            rest
        }
    }
}

/// `(app, title, id)` order.
pub open spec fn window_key_lt(a: Window, b: Window) -> bool {
    text_lt(a.app@, b.app@) || (a.app@ == b.app@ && (text_lt(a.title@, b.title@) || (a.title@
        == b.title@ && text_lt(a.id@, b.id@))))
}

/// Positions in a group, ordered by their window's key and, for equal keys,
/// by where they came: a stable sort.
pub open spec fn position_leq(g: Seq<Window>) -> spec_fn(int, int) -> bool {
    |a: int, b: int| window_key_lt(g[a], g[b]) || (!window_key_lt(g[b], g[a]) && a <= b)
}

/// A group's windows sorted by `(app, title, id)`, stably.
pub open spec fn sorted_windows(g: Seq<Window>) -> Seq<Window> {
    Seq::new(g.len(), |i: int| i).sort_by(position_leq(g)).map_values(|p: int| g[p])
}

/// The groups of the window list: each workspace with its sorted windows.
pub open spec fn window_groups(all: Seq<Window>, first: Seq<char>) -> Seq<(Seq<char>, Seq<Window>)> {
    let order = window_group_order(all, first);
    Seq::new(order.len(), |k: int| (order[k], sorted_windows(in_workspace(all, order[k]))))
}

pub open spec fn group_total(groups: Seq<(Seq<char>, Seq<Window>)>) -> nat
    decreases groups.len(),
{
    if groups.len() == 0 {
        0
    } else {
        group_total(groups.drop_last()) + groups.last().1.len()
    }
}

/// `{n:>3}`: right-aligned in three columns.
pub open spec fn padded3(s: Seq<char>) -> Seq<char> {
    if s.len() >= 3 {
        s
    } else {
        Seq::new((3 - s.len()) as nat, |i: int| ' ') + s
    }
}

pub open spec fn window_heading(ws: Seq<char>, n: nat) -> Seq<char> {
    SEP@ + "  "@ + ws + "  ("@ + decimal(n) + ") "@ + SEP@
}

pub open spec fn window_item(index: nat, w: Window, all: Seq<Window>) -> Seq<char> {
    padded3(decimal(index)) + " \u{b7} "@ + w.app@ + " — "@ + window_shown(w, all)
}

pub open spec fn window_row(w: Window, all: Seq<Window>, ws: Seq<char>) -> RowView {
    RowView {
        id: w.id@,
        label: window_shown(w, all),
        section: Some(ws),
        count: None,
        marker: None,
        pinned: false,
        detail: None,
        active: false,
        bundle: Some(w.bundle@),
        stack: Seq::<Seq<char>>::empty(),
    }
}

pub open spec fn window_items(groups: Seq<(Seq<char>, Seq<Window>)>, all: Seq<Window>) -> Seq<
    Seq<char>,
>
    decreases groups.len(),
{
    if groups.len() == 0 {
        Seq::<Seq<char>>::empty()
    } else {
        let before = group_total(groups.drop_last());
        let ms = groups.last().1;
        window_items(groups.drop_last(), all) + seq![window_heading(groups.last().0, ms.len())]
            + Seq::new(ms.len(), |m: int| window_item((before + m + 1) as nat, ms[m], all))
    }
}

pub open spec fn window_rows(groups: Seq<(Seq<char>, Seq<Window>)>, all: Seq<Window>) -> Seq<RowView>
    decreases groups.len(),
{
    if groups.len() == 0 {
        Seq::<RowView>::empty()
    } else {
        window_rows(groups.drop_last(), all) + groups.last().1.map_values(
            |w: Window| window_row(w, all, groups.last().0),
        )
    }
}

pub open spec fn window_flat(groups: Seq<(Seq<char>, Seq<Window>)>) -> Seq<Window>
    decreases groups.len(),
{
    if groups.len() == 0 {
        Seq::<Window>::empty()
    } else {
        window_flat(groups.drop_last()) + groups.last().1
    }
}


fn shown_name_exec(w: &Window) -> (r: String)
    ensures
        r@ == shown_name(*w),
{
    if w.title.as_str().is_empty() {
        copy_text(&w.app)
    } else {
        tab_title(w.app.as_str(), w.title.as_str())
    }
}

fn seen_key_exec(w: &Window) -> (r: Vec<char>)
    ensures
        r@ == seen_key(*w),
{
    let mut k = concat_chars(chars_of(w.app.as_str()).as_slice(), chars_of("|").as_slice());
    append_chars(&mut k, chars_of(shown_name_exec(w).as_str()).as_slice());
    k
}

fn times_seen_exec(all: &[Window], key: &[char]) -> (n: usize)
    ensures
        n == times_seen(all@, key@),
{
    let mut n: usize = 0;
    let mut i: usize = 0;
    while i < all.len()
        invariant
            i <= all@.len(),
            n <= i,
            n == times_seen(all@.take(i as int), key@),
        decreases all.len() - i,
    {
        proof {
            assert(all@.take(i + 1).drop_last() =~= all@.take(i as int));
        }
        let k = seen_key_exec(&all[i]);
        if same_chars(k.as_slice(), key) {
            n += 1;
        }
        i += 1;
    }
    assert(all@.take(all@.len() as int) =~= all@);
    n
}

fn window_shown_exec(w: &Window, all: &[Window]) -> (r: String)
    ensures
        r@ == window_shown(*w, all@),
{
    let name = chars_of(shown_name_exec(w).as_str());
    let label = shorten_chars(name.as_slice(), 64);
    let key = seen_key_exec(w);
    if times_seen_exec(all, key.as_slice()) > 1 {
        let mut out = concat_chars(label.as_slice(), chars_of("  [").as_slice());
        append_chars(&mut out, chars_of(w.id.as_str()).as_slice());
        append_chars(&mut out, chars_of("]").as_slice());
        string_of(out.as_slice())
    } else {
        string_of(label.as_slice())
    }
}

fn window_key_lt_exec(a: &Window, b: &Window) -> (r: bool)
    ensures
        r == window_key_lt(*a, *b),
{
    less_text(a.app.as_str(), b.app.as_str()) || (same_text(a.app.as_str(), b.app.as_str()) && (
    less_text(a.title.as_str(), b.title.as_str()) || (same_text(a.title.as_str(), b.title.as_str())
        && less_text(a.id.as_str(), b.id.as_str()))))
}

proof fn lemma_window_key_order(a: Window, b: Window, c: Window)
    ensures
        !(window_key_lt(a, b) && window_key_lt(b, a)),
        window_key_lt(a, b) && window_key_lt(b, c) ==> window_key_lt(a, c),
{
    lemma_text_lt_asym(a.app@, b.app@);
    lemma_text_lt_asym(a.title@, b.title@);
    lemma_text_lt_asym(a.id@, b.id@);
    if window_key_lt(a, b) && window_key_lt(b, c) {
        if text_lt(a.app@, b.app@) && text_lt(b.app@, c.app@) {
            lemma_text_lt_trans(a.app@, b.app@, c.app@);
        }
        if a.app@ == b.app@ && b.app@ == c.app@ {
            if text_lt(a.title@, b.title@) && text_lt(b.title@, c.title@) {
                lemma_text_lt_trans(a.title@, b.title@, c.title@);
            }
            if a.title@ == b.title@ && b.title@ == c.title@ {
                lemma_text_lt_trans(a.id@, b.id@, c.id@);
            }
        }
    }
}

proof fn lemma_window_key_total(a: Window, b: Window)
    ensures
        window_key_lt(a, b) || window_key_lt(b, a) || (a.app@ == b.app@ && a.title@ == b.title@
            && a.id@ == b.id@),
{
    lemma_text_lt_total(a.app@, b.app@);
    lemma_text_lt_total(a.title@, b.title@);
    lemma_text_lt_total(a.id@, b.id@);
}

proof fn lemma_position_order(g: Seq<Window>)
    ensures
        total_ordering(position_leq(g)),
{
    let leq = position_leq(g);
    assert forall|a: int| #[trigger] leq(a, a) by {
        lemma_window_key_order(g[a], g[a], g[a]);
    }
    assert forall|a: int, b: int| #[trigger] leq(a, b) && #[trigger] leq(b, a) implies a == b by {
        lemma_window_key_order(g[a], g[b], g[a]);
    }
    assert forall|a: int, b: int, c: int| #[trigger] leq(a, b) && #[trigger] leq(b, c) implies leq(
        a,
        c,
    ) by {
        lemma_window_key_order(g[a], g[b], g[c]);
        lemma_window_key_order(g[b], g[c], g[a]);
        lemma_window_key_order(g[c], g[a], g[b]);
        lemma_window_key_total(g[a], g[c]);
        lemma_window_key_total(g[a], g[b]);
        lemma_window_key_total(g[b], g[c]);
    }
    assert forall|a: int, b: int| #[trigger] leq(a, b) || #[trigger] leq(b, a) by {
        lemma_window_key_order(g[a], g[b], g[a]);
    }
}

fn position_le(g: &Vec<Window>, a: usize, b: usize) -> (r: bool)
    requires
        a < g@.len(),
        b < g@.len(),
    ensures
        r == (position_leq(g@))(a as int, b as int),
{
    window_key_lt_exec(&g[a], &g[b]) || (!window_key_lt_exec(&g[b], &g[a]) && a <= b)
}

pub open spec fn positions(v: Seq<usize>) -> Seq<int> {
    v.map_values(|p: usize| p as int)
}

/// A group's windows sorted by `(app, title, id)`, stably.
fn sorted_windows_exec(g: &Vec<Window>) -> (r: Vec<Window>)
    ensures
        r@ == sorted_windows(g@),
{
    let ghost leq = position_leq(g@);
    let ghost all = Seq::new(g@.len(), |i: int| i);
    proof {
        lemma_position_order(g@);
    }
    let mut order: Vec<usize> = Vec::new();
    let mut i: usize = 0;
    assert(positions(order@) =~= all.take(0));
    while i < g.len()
        invariant
            i <= g@.len(),
            leq == position_leq(g@),
            all == Seq::new(g@.len(), |i: int| i),
            total_ordering(leq),
            sorted_by(positions(order@), leq),
            positions(order@).to_multiset() == all.take(i as int).to_multiset(),
            forall|k: int| 0 <= k < order@.len() ==> #[trigger] order@[k] < g@.len(),
        decreases g.len() - i,
    {
        let mut j: usize = 0;
        while j < order.len() && position_le(g, order[j], i)
            invariant
                j <= order@.len(),
                i < g@.len(),
                leq == position_leq(g@),
                forall|k: int| 0 <= k < order@.len() ==> #[trigger] order@[k] < g@.len(),
                forall|k: int| 0 <= k < j ==> #[trigger] leq(positions(order@)[k], i as int),
            decreases order.len() - j,
        {
            j += 1;
        }
        proof {
            lemma_insert_sorted_by(positions(order@), i as int, j as int, leq);
            assert(positions(order@.insert(j as int, i)) =~= positions(order@).insert(
                j as int,
                i as int,
            ));
            assert(all.take(i + 1) =~= all.take(i as int).push(i as int));
            vstd::seq_lib::to_multiset_insert(positions(order@), j as int, i as int);
            vstd::seq_lib::to_multiset_build(all.take(i as int), i as int);
        }
        order.insert(j, i);
        i += 1;
    }
    proof {
        assert(all.take(g@.len() as int) =~= all);
        all.lemma_sort_by_ensures(leq);
        vstd::seq_lib::lemma_sorted_unique(positions(order@), all.sort_by(leq), leq);
    }
    let mut r: Vec<Window> = Vec::new();
    let mut k: usize = 0;
    while k < order.len()
        invariant
            k <= order@.len(),
            positions(order@) == all.sort_by(leq),
            leq == position_leq(g@),
            all == Seq::new(g@.len(), |i: int| i),
            forall|q: int| 0 <= q < order@.len() ==> #[trigger] order@[q] < g@.len(),
            r@ == positions(order@).take(k as int).map_values(|p: int| g@[p]),
        decreases order.len() - k,
    {
        let ghost before = r@;
        r.push(g[order[k]].duplicate());
        assert(positions(order@).take(k + 1) =~= positions(order@).take(k as int).push(
            order@[k as int] as int,
        ));
        assert(r@ =~= positions(order@).take(k + 1).map_values(|p: int| g@[p]));
        k += 1;
    }
    assert(positions(order@).take(order@.len() as int) =~= positions(order@));
    r
}

fn in_workspace_exec(all: &[Window], x: &str) -> (r: Vec<Window>)
    ensures
        r@ == in_workspace(all@, x@),
{
    let mut r: Vec<Window> = Vec::new();
    let mut i: usize = 0;
    while i < all.len()
        invariant
            i <= all@.len(),
            r@ == in_workspace(all@.take(i as int), x@),
        decreases all.len() - i,
    {
        proof {
            assert(all@.take(i + 1).drop_last() =~= all@.take(i as int));
        }
        if same_text(all[i].workspace.as_str(), x) {
            r.push(all[i].duplicate());
        }
        i += 1;
    }
    assert(all@.take(all@.len() as int) =~= all@);
    r
}

/// The workspaces of the window list, in the order they are listed.
fn window_group_order_exec(all: &[Window], first: &str) -> (r: Vec<String>)
    ensures
        views(r@) == window_group_order(all@, first@),
{
    let mut present: NameMap<bool> = NameMap::new();
    let mut i: usize = 0;
    while i < all.len()
        invariant
            i <= all@.len(),
            forall|x: Seq<char>| #[trigger] present.has(x) <==> has_workspace(all@.take(i as int), x),
        decreases all.len() - i,
    {
        present.insert(copy_text(&all[i].workspace), true);
        proof {
            assert forall|x: Seq<char>| #[trigger] present.has(x) <==> has_workspace(
                all@.take(i + 1),
                x,
            ) by {
                if has_workspace(all@.take(i + 1), x) {
                    let j = choose|j: int|
                        0 <= j < all@.take(i + 1).len() && #[trigger] all@.take(i + 1)[j].workspace@
                            == x;
                    if j < i {
                        assert(all@.take(i as int)[j] == all@.take(i + 1)[j]);
                    }
                }
                if has_workspace(all@.take(i as int), x) {
                    let j = choose|j: int|
                        0 <= j < all@.take(i as int).len() && #[trigger] all@.take(
                            i as int,
                        )[j].workspace@ == x;
                    assert(all@.take(i + 1)[j] == all@.take(i as int)[j]);
                }
                if x == all@[i as int].workspace@ {
                    assert(all@.take(i + 1)[i as int] == all@[i as int]);
                }
            }
        }
        i += 1;
    }
    assert(all@.take(all@.len() as int) =~= all@);
    let names = present.names();
    proof {
        use_type_invariant(&present);
        assert forall|x: Seq<char>| #[trigger] views(names@).contains(x) <==> has_workspace(all@, x) by {
            assert(views(names@) == present.keys());
            assert(present.has(x) <==> has_workspace(all@.take(all@.len() as int), x));
        }
        let chosen = workspace_names(all@);
        assert(strictly_sorted(views(names@)) && forall|x: Seq<char>|
            #[trigger] views(names@).contains(x) <==> has_workspace(all@, x));
        lemma_strictly_sorted_unique(views(names@), chosen);
    }
    if present.contains_key(first) {
        let rest = without_exec(&names, first);
        let mut r: Vec<String> = Vec::new();
        r.push(owned(first));
        let mut k: usize = 0;
        while k < rest.len()
            invariant
                k <= rest@.len(),
                views(r@) == seq![first@] + views(rest@).take(k as int),
            decreases rest.len() - k,
        {
            let ghost before = r@;
            r.push(copy_text(&rest[k]));
            assert(views(r@) =~= views(before).push(rest@[k as int]@));
            assert(views(rest@).take(k + 1) =~= views(rest@).take(k as int).push(
                rest@[k as int]@,
            ));
            k += 1;
        }
        assert(views(rest@).take(rest@.len() as int) =~= views(rest@));
        r
    } else {
        names
    }
}

fn padded3_exec(s: Vec<char>) -> (r: Vec<char>)
    ensures
        r@ == padded3(s@),
{
    if s.len() >= 3 {
        s
    } else {
        let mut r: Vec<char> = Vec::new();
        let pad = 3 - s.len();
        let mut k: usize = 0;
        while k < pad
            invariant
                k <= pad,
                pad == 3 - s@.len(),
                r@ == Seq::new(k as nat, |i: int| ' '),
            decreases pad - k,
        {
            r.push(' ');
            assert(r@ =~= Seq::new((k + 1) as nat, |i: int| ' '));
            k += 1;
        }
        append_chars(&mut r, s.as_slice());
        r
    }
}


/// One line per window, grouped under its workspace.
///
/// Rows are addressed by a leading number rather than by their text: two
/// browser windows routinely share a title, and a chosen line comes back
/// trimmed, so matching on the label is both ambiguous and fragile.
pub struct WindowMenu {
    pub items: Vec<String>,
    pub rows: Vec<Row>,
    pub by_index: Vec<Window>,
}

impl WindowMenu {
    /// The windows in the order they are numbered, from 1.
    pub closed spec fn numbered(&self) -> Seq<Window> {
        self.by_index@
    }
}

/// A row as the window list builds it, with `pinned` saying what `follows`
/// answered.
pub open spec fn row_with_pin(r: RowView, pinned: bool) -> RowView {
    RowView { pinned, ..r }
}

fn emit_window<F: Fn(&Window) -> bool>(
    items: &mut Vec<String>,
    rows: &mut Vec<Row>,
    numbered: &mut Vec<Window>,
    w: &Window,
    all: &[Window],
    ws: &String,
    index: usize,
    follows: &F,
)
    requires
        forall|x: &Window| #[trigger] follows.requires((x,)),
    ensures
        views(final(items)@) == views(old(items)@).push(window_item(index as nat, *w, all@)),
        final(rows)@.len() == old(rows)@.len() + 1,
        forall|k: int| 0 <= k < old(rows)@.len() ==> #[trigger] final(rows)@[k] == old(rows)@[k],
        final(rows)@[old(rows)@.len() as int]@ == row_with_pin(
            window_row(*w, all@, ws@),
            final(rows)@[old(rows)@.len() as int].pinned,
        ),
        follows.ensures((w,), final(rows)@[old(rows)@.len() as int].pinned),
        final(numbered)@ == old(numbered)@.push(*w),
{
    let shown = window_shown_exec(w, all);
    let mut line = padded3_exec(decimal_chars(index));
    append_chars(&mut line, chars_of(" \u{b7} ").as_slice());
    append_chars(&mut line, chars_of(w.app.as_str()).as_slice());
    append_chars(&mut line, chars_of(" — ").as_slice());
    append_chars(&mut line, chars_of(shown.as_str()).as_slice());
    let ghost it = items@;
    items.push(string_of(line.as_slice()));
    assert(views(items@) =~= views(it).push(window_item(index as nat, *w, all@)));
    let pinned = follows(w);
    let row = Row {
        id: copy_text(&w.id),
        label: shown,
        section: Some(copy_text(ws)),
        count: None,
        marker: None,
        pinned,
        detail: None,
        active: false,
        bundle: Some(copy_text(&w.bundle)),
        stack: Vec::new(),
    };
    assert(views(row.stack@) =~= Seq::<Seq<char>>::empty());
    rows.push(row);
    numbered.push(w.duplicate());
}

/// Build the window list. `first` names the workspace to show at the top —
/// normally the one being drained. `follows` marks the windows that come
/// along to every task, so their standing instruction is visible in the list
/// rather than only on the row that sets it.
pub fn build_window_menu<F: Fn(&Window) -> bool>(windows: &[Window], first: &str, follows: F) -> (m:
    WindowMenu)
    requires
        forall|x: &Window| #[trigger] follows.requires((x,)),
    ensures
        ({
            let groups = window_groups(windows@, first@);
            let rows = window_rows(groups, windows@);
            &&& views(m.items@) == window_items(groups, windows@)
            &&& m.rows@.len() == rows.len()
            &&& forall|k: int|
                0 <= k < rows.len() ==> (#[trigger] m.rows@[k])@ == row_with_pin(
                    rows[k],
                    m.rows@[k].pinned,
                ) && follows.ensures((&window_flat(groups)[k],), m.rows@[k].pinned)
            &&& m.numbered() == window_flat(groups)
        }),
{
    let ghost all = windows@;
    let ghost groups = window_groups(all, first@);
    let order = window_group_order_exec(windows, first);
    let ghost ord = window_group_order(all, first@);
    let mut items: Vec<String> = Vec::new();
    let mut rows: Vec<Row> = Vec::new();
    let mut numbered: Vec<Window> = Vec::new();
    let mut index: usize = 0;
    let mut g: usize = 0;
    proof {
        assert(groups.take(0) =~= Seq::<(Seq<char>, Seq<Window>)>::empty());
    }
    while g < order.len()
        invariant
            g <= order@.len(),
            all == windows@,
            ord == window_group_order(all, first@),
            groups == window_groups(all, first@),
            views(order@) == ord,
            groups.len() == ord.len(),
            index == group_total(groups.take(g as int)),
            forall|x: &Window| #[trigger] follows.requires((x,)),
            views(items@) == window_items(groups.take(g as int), all),
            rows@.len() == window_rows(groups.take(g as int), all).len(),
            forall|k: int|
                0 <= k < rows@.len() ==> (#[trigger] rows@[k])@ == row_with_pin(
                    window_rows(groups.take(g as int), all)[k],
                    rows@[k].pinned,
                ) && follows.ensures(
                    (&window_flat(groups.take(g as int))[k],),
                    rows@[k].pinned,
                ),
            numbered@ == window_flat(groups.take(g as int)),
        decreases order.len() - g,
    {
        let ws = &order[g];
        let members = sorted_windows_exec(&in_workspace_exec(windows, ws.as_str()));
        proof {
            assert(groups[g as int] == (ord[g as int], sorted_windows(in_workspace(all, ord[g as int]))));
        }
        // The heading says how many windows the workspace holds.
        let mut head = concat_chars(chars_of(SEP).as_slice(), chars_of("  ").as_slice());
        append_chars(&mut head, chars_of(ws.as_str()).as_slice());
        append_chars(&mut head, chars_of("  (").as_slice());
        append_chars(&mut head, decimal_chars(members.len()).as_slice());
        append_chars(&mut head, chars_of(") ").as_slice());
        append_chars(&mut head, chars_of(SEP).as_slice());
        let ghost items0 = views(items@);
        let ghost rows0 = rows@;
        let ghost numbered0 = numbered@;
        let ghost index0 = index;
        items.push(string_of(head.as_slice()));
        assert(views(items@) =~= items0.push(window_heading(ws@, members@.len())));
        let ghost items1 = views(items@);
        let ghost ms = members@;
        proof {
            assert(ws@ == ord[g as int]);
            assert(windows@.len() == windows.len());
            lemma_sorted_windows_len(in_workspace(all, ord[g as int]));
            lemma_group_total_bound(all, first@, g as int);
            lemma_rows_flat_len(groups.take(g as int), all);
        }
        let mut m: usize = 0;
        while m < members.len()
            invariant
                m <= members@.len(),
                ms == members@,
                index == index0 + m,
                index0 + ms.len() <= usize::MAX,
                forall|x: &Window| #[trigger] follows.requires((x,)),
                views(items@) == items1 + Seq::new(
                    m as nat,
                    |q: int| window_item((index0 + q + 1) as nat, ms[q], all),
                ),
                rows@.len() == rows0.len() + m,
                forall|k: int| 0 <= k < rows0.len() ==> #[trigger] rows@[k] == rows0[k],
                forall|q: int|
                    0 <= q < m ==> (#[trigger] rows@[rows0.len() + q])@ == row_with_pin(
                        window_row(ms[q], all, ws@),
                        rows@[rows0.len() + q].pinned,
                    ) && follows.ensures((&ms[q],), rows@[rows0.len() + q].pinned),
                numbered@ == numbered0 + ms.take(m as int),
                all == windows@,
            decreases members.len() - m,
        {
            index += 1;
            emit_window(&mut items, &mut rows, &mut numbered, &members[m], windows, ws, index, &follows);
            proof {
                assert(views(items@) =~= items1 + Seq::new(
                    (m + 1) as nat,
                    |q: int| window_item((index0 + q + 1) as nat, ms[q], all),
                ));
                assert(ms.take(m + 1) =~= ms.take(m as int).push(ms[m as int]));
            }
            m += 1;
        }
        proof {
            let gt = groups.take(g + 1);
            assert(gt.drop_last() =~= groups.take(g as int));
            assert(gt.last() == groups[g as int]);
            assert(ms.take(ms.len() as int) =~= ms);
            assert(window_flat(gt) =~= window_flat(groups.take(g as int)) + ms);
            assert(window_items(gt, all) =~= window_items(groups.take(g as int), all) + seq![
                window_heading(ws@, ms.len()),
            ] + Seq::new(ms.len(), |q: int| window_item((index0 + q + 1) as nat, ms[q], all)));
            let wr = window_rows(gt, all);
            assert(wr =~= window_rows(groups.take(g as int), all) + ms.map_values(
                |w: Window| window_row(w, all, ws@),
            ));
            assert forall|k: int| 0 <= k < rows@.len() implies (#[trigger] rows@[k])@ == row_with_pin(
                wr[k],
                rows@[k].pinned,
            ) && follows.ensures((&window_flat(gt)[k],), rows@[k].pinned) by {
                if k >= rows0.len() {
                    let q = k - rows0.len();
                    assert(rows@[rows0.len() + q] == rows@[k]);
                    assert(window_flat(gt)[k] == ms[q]);
                } else {
                    assert(window_flat(gt)[k] == window_flat(groups.take(g as int))[k]);
                }
            }
        }
        g += 1;
    }
    proof {
        assert(groups.take(order@.len() as int) =~= groups);
    }
    WindowMenu { items, rows, by_index: numbered }
}


proof fn lemma_rows_flat_len(groups: Seq<(Seq<char>, Seq<Window>)>, all: Seq<Window>)
    ensures
        window_rows(groups, all).len() == window_flat(groups).len(),
        window_flat(groups).len() == group_total(groups),
    decreases groups.len(),
{
    if groups.len() > 0 {
        lemma_rows_flat_len(groups.drop_last(), all);
    }
}

pub open spec fn total_in(all: Seq<Window>, keys: Seq<Seq<char>>) -> nat
    decreases keys.len(),
{
    if keys.len() == 0 {
        0
    } else {
        total_in(all, keys.drop_last()) + in_workspace(all, keys.last()).len()
    }
}

proof fn lemma_total_in_push(all: Seq<Window>, w: Window, keys: Seq<Seq<char>>)
    ensures
        total_in(all.push(w), keys) == total_in(all, keys) + occurrences(keys, w.workspace@),
    decreases keys.len(),
{
    if keys.len() > 0 {
        lemma_total_in_push(all, w, keys.drop_last());
        assert(all.push(w).drop_last() =~= all);
    }
}

proof fn lemma_occurrences_distinct(keys: Seq<Seq<char>>, x: Seq<char>)
    requires
        keys.no_duplicates(),
    ensures
        occurrences(keys, x) <= 1,
        !keys.contains(x) ==> occurrences(keys, x) == 0,
    decreases keys.len(),
{
    if keys.len() > 0 {
        let d = keys.drop_last();
        assert(d.no_duplicates());
        lemma_occurrences_distinct(d, x);
        if keys.last() == x && d.contains(x) {
            let i = choose|i: int| 0 <= i < d.len() && d[i] == x;
            assert(keys[i] == keys[keys.len() - 1]);
        }
        if keys.last() == x {
            assert(keys.contains(x));
            if d.contains(x) {
            } else {
                lemma_occurrences_absent(d, x);
            }
        }
        if !keys.contains(x) {
            assert(!d.contains(x)) by {
                if d.contains(x) {
                    let i = choose|i: int| 0 <= i < d.len() && d[i] == x;
                    assert(keys[i] == x);
                }
            }
        }
    }
}

proof fn lemma_occurrences_absent(keys: Seq<Seq<char>>, x: Seq<char>)
    requires
        !keys.contains(x),
    ensures
        occurrences(keys, x) == 0,
    decreases keys.len(),
{
    if keys.len() > 0 {
        let d = keys.drop_last();
        assert(!d.contains(x)) by {
            if d.contains(x) {
                let i = choose|i: int| 0 <= i < d.len() && d[i] == x;
                assert(keys[i] == x);
            }
        }
        lemma_occurrences_absent(d, x);
        assert(keys[keys.len() - 1] != x);
    }
}

proof fn lemma_total_in_bound(all: Seq<Window>, keys: Seq<Seq<char>>)
    requires
        keys.no_duplicates(),
    ensures
        total_in(all, keys) <= all.len(),
    decreases all.len(),
{
    if all.len() == 0 {
        lemma_total_in_empty(all, keys);
    } else {
        let a = all.drop_last();
        lemma_total_in_bound(a, keys);
        assert(a.push(all.last()) =~= all);
        lemma_total_in_push(a, all.last(), keys);
        lemma_occurrences_distinct(keys, all.last().workspace@);
    }
}

proof fn lemma_total_in_empty(all: Seq<Window>, keys: Seq<Seq<char>>)
    requires
        all.len() == 0,
    ensures
        total_in(all, keys) == 0,
    decreases keys.len(),
{
    if keys.len() > 0 {
        lemma_total_in_empty(all, keys.drop_last());
    }
}

proof fn lemma_sorted_windows_len(g: Seq<Window>)
    ensures
        sorted_windows(g).len() == g.len(),
{
    let all = Seq::new(g.len(), |i: int| i);
    lemma_position_order(g);
    all.lemma_sort_by_ensures(position_leq(g));
    vstd::seq_lib::to_multiset_len(all);
    vstd::seq_lib::to_multiset_len(all.sort_by(position_leq(g)));
}

proof fn lemma_strictly_sorted_distinct(s: Seq<Seq<char>>)
    requires
        strictly_sorted(s),
    ensures
        s.no_duplicates(),
{
    assert forall|i: int, j: int| 0 <= i < s.len() && 0 <= j < s.len() && i != j implies s[i]
        != s[j] by {
        if i < j {
            assert(text_lt(s[i], s[j]));
        } else {
            assert(text_lt(s[j], s[i]));
        }
        crate::text::lemma_text_lt_irreflexive(s[i]);
    }
}

proof fn lemma_without_distinct(s: Seq<Seq<char>>, x: Seq<char>)
    requires
        s.no_duplicates(),
    ensures
        without(s, x).no_duplicates(),
        !without(s, x).contains(x),
        forall|y: Seq<char>| #[trigger] without(s, x).contains(y) ==> s.contains(y),
    decreases s.len(),
{
    if s.len() > 0 {
        let d = s.drop_last();
        assert(d.no_duplicates());
        lemma_without_distinct(d, x);
        let r = without(d, x);
        if s.last() != x {
            assert(!r.contains(s.last())) by {
                if r.contains(s.last()) {
                    assert(d.contains(s.last()));
                    let i = choose|i: int| 0 <= i < d.len() && d[i] == s.last();
                    assert(s[i] == s[s.len() - 1]);
                }
            }
            assert forall|y: Seq<char>| #[trigger] r.push(s.last()).contains(y) implies s.contains(y) by {
                if r.contains(y) {
                    assert(d.contains(y));
                    let i = choose|i: int| 0 <= i < d.len() && d[i] == y;
                    assert(s[i] == y);
                } else {
                    assert(s[s.len() - 1] == y);
                }
            }
        } else {
            assert forall|y: Seq<char>| #[trigger] r.contains(y) implies s.contains(y) by {
                assert(d.contains(y));
                let i = choose|i: int| 0 <= i < d.len() && d[i] == y;
                assert(s[i] == y);
            }
        }
    }
}

proof fn lemma_group_total_take(all: Seq<Window>, first: Seq<char>, g: int)
    requires
        0 <= g <= window_group_order(all, first).len(),
    ensures
        group_total(window_groups(all, first).take(g)) == total_in(
            all,
            window_group_order(all, first).take(g),
        ),
    decreases g,
{
    let groups = window_groups(all, first);
    let ord = window_group_order(all, first);
    if g > 0 {
        lemma_group_total_take(all, first, g - 1);
        assert(groups.take(g).drop_last() =~= groups.take(g - 1));
        assert(ord.take(g).drop_last() =~= ord.take(g - 1));
        lemma_sorted_windows_len(in_workspace(all, ord[g - 1]));
    }
}

proof fn lemma_group_total_bound(all: Seq<Window>, first: Seq<char>, g: int)
    requires
        0 <= g < window_group_order(all, first).len(),
    ensures
        group_total(window_groups(all, first).take(g)) + in_workspace(
            all,
            window_group_order(all, first)[g],
        ).len() <= all.len(),
{
    let ord = window_group_order(all, first);
    let names = workspace_names(all);
    let witness = choose|r: Seq<Seq<char>>|
        strictly_sorted(r) && forall|x: Seq<char>| #[trigger] r.contains(x) <==> has_workspace(all, x);
    lemma_workspace_names_exist(all);
    lemma_strictly_sorted_distinct(names);
    if has_workspace(all, first) {
        lemma_without_distinct(names, first);
        let w = without(names, first);
        assert(ord == seq![first] + w);
        assert forall|i: int, j: int| 0 <= i < ord.len() && 0 <= j < ord.len() && i != j implies ord[i]
            != ord[j] by {
            if i > 0 && j > 0 {
                assert(ord[i] == w[i - 1]);
                assert(ord[j] == w[j - 1]);
            } else if i == 0 {
                assert(ord[j] == w[j - 1]);
                assert(w.contains(w[j - 1]));
            } else {
                assert(ord[i] == w[i - 1]);
                assert(w.contains(w[i - 1]));
            }
        }
    }
    assert(ord.no_duplicates());
    let t = ord.take(g + 1);
    assert(t.no_duplicates());
    lemma_total_in_bound(all, t);
    assert(t.drop_last() =~= ord.take(g));
    lemma_group_total_take(all, first, g);
}


/// `x` put into its place in a list in strictly increasing order.
proof fn insert_sorted(r: Seq<Seq<char>>, x: Seq<char>) -> (out: Seq<Seq<char>>)
    requires
        strictly_sorted(r),
    ensures
        strictly_sorted(out),
        forall|y: Seq<char>| #[trigger] out.contains(y) <==> (r.contains(y) || y == x),
        out.len() > 0 ==> (out[0] == x || (r.len() > 0 && out[0] == r[0])),
    decreases r.len(),
{
    if r.len() == 0 {
        let out = seq![x];
        assert forall|y: Seq<char>| #[trigger] out.contains(y) <==> (r.contains(y) || y == x) by {
            if out.contains(y) {
                assert(out[0] == y);
            }
            if y == x {
                assert(out[0] == y);
            }
        }
        out
    } else if x == r[0] {
        assert(r.contains(r[0]));
        r
    } else if text_lt(x, r[0]) {
        let out = seq![x] + r;
        assert forall|i: int, j: int| 0 <= i < j < out.len() implies text_lt(
            #[trigger] out[i],
            #[trigger] out[j],
        ) by {
            if i == 0 {
                if j > 1 {
                    assert(text_lt(r[0], r[j - 1]));
                    crate::text::lemma_text_lt_trans(x, r[0], r[j - 1]);
                }
            } else {
                assert(out[i] == r[i - 1] && out[j] == r[j - 1]);
            }
        }
        assert forall|y: Seq<char>| #[trigger] out.contains(y) <==> (r.contains(y) || y == x) by {
            if out.contains(y) {
                let i = choose|i: int| 0 <= i < out.len() && out[i] == y;
                if i > 0 {
                    assert(r[i - 1] == y);
                }
            }
            if r.contains(y) {
                let i = choose|i: int| 0 <= i < r.len() && r[i] == y;
                assert(out[i + 1] == y);
            }
            if y == x {
                assert(out[0] == y);
            }
        }
        out
    } else {
        let d = r.drop_first();
        assert(strictly_sorted(d)) by {
            assert forall|i: int, j: int| 0 <= i < j < d.len() implies text_lt(
                #[trigger] d[i],
                #[trigger] d[j],
            ) by {
                assert(d[i] == r[i + 1] && d[j] == r[j + 1]);
            }
        }
        let rest = insert_sorted(d, x);
        let out = seq![r[0]] + rest;
        crate::text::lemma_text_lt_total(x, r[0]);
        assert forall|i: int, j: int| 0 <= i < j < out.len() implies text_lt(
            #[trigger] out[i],
            #[trigger] out[j],
        ) by {
            if i == 0 {
                assert(out[j] == rest[j - 1]);
                assert(rest.contains(rest[j - 1]));
                if rest[j - 1] != x {
                    assert(d.contains(rest[j - 1]));
                    let k = choose|k: int| 0 <= k < d.len() && d[k] == rest[j - 1];
                    assert(r[k + 1] == d[k]);
                }
            } else {
                assert(out[i] == rest[i - 1] && out[j] == rest[j - 1]);
            }
        }
        assert forall|y: Seq<char>| #[trigger] out.contains(y) <==> (r.contains(y) || y == x) by {
            if out.contains(y) {
                let i = choose|i: int| 0 <= i < out.len() && out[i] == y;
                if i > 0 {
                    assert(rest[i - 1] == y);
                    assert(rest.contains(y));
                    if y != x {
                        assert(d.contains(y));
                        let k = choose|k: int| 0 <= k < d.len() && d[k] == y;
                        assert(r[k + 1] == y);
                    }
                } else {
                    assert(r[0] == y);
                }
            }
            if r.contains(y) {
                let i = choose|i: int| 0 <= i < r.len() && r[i] == y;
                if i == 0 {
                    assert(out[0] == y);
                } else {
                    assert(d[i - 1] == y);
                    assert(d.contains(y));
                    assert(rest.contains(y));
                    let k = choose|k: int| 0 <= k < rest.len() && rest[k] == y;
                    assert(out[k + 1] == y);
                }
            }
            if y == x {
                assert(rest.contains(y));
                let k = choose|k: int| 0 <= k < rest.len() && rest[k] == y;
                assert(out[k + 1] == y);
            }
        }
        out
    }
}

/// An alphabetical list of the workspaces the windows are in.
proof fn sorted_workspaces_of(all: Seq<Window>) -> (r: Seq<Seq<char>>)
    ensures
        strictly_sorted(r),
        forall|x: Seq<char>| #[trigger] r.contains(x) <==> has_workspace(all, x),
    decreases all.len(),
{
    if all.len() == 0 {
        let r = Seq::<Seq<char>>::empty();
        r
    } else {
        let d = all.drop_last();
        let prev = sorted_workspaces_of(d);
        let r = insert_sorted(prev, all.last().workspace@);
        assert forall|x: Seq<char>| #[trigger] r.contains(x) <==> has_workspace(all, x) by {
            if has_workspace(all, x) {
                let i = choose|i: int| 0 <= i < all.len() && #[trigger] all[i].workspace@ == x;
                if i < d.len() {
                    assert(d[i] == all[i]);
                    assert(has_workspace(d, x));
                }
            }
            if has_workspace(d, x) {
                let i = choose|i: int| 0 <= i < d.len() && #[trigger] d[i].workspace@ == x;
                assert(all[i] == d[i]);
            }
            if x == all.last().workspace@ {
                assert(all[all.len() - 1].workspace@ == x);
            }
        }
        r
    }
}

/// Some alphabetical list of the workspaces in use exists, so the one the
/// specification picks has the properties it is chosen for.
proof fn lemma_workspace_names_exist(all: Seq<Window>)
    ensures
        strictly_sorted(workspace_names(all)),
        forall|x: Seq<char>| #[trigger] workspace_names(all).contains(x) <==> has_workspace(all, x),
{
    let r = sorted_workspaces_of(all);
    assert(strictly_sorted(r) && forall|x: Seq<char>| #[trigger] r.contains(x) <==> has_workspace(all, x));
}


proof fn lemma_without_keeps(members: Seq<Seq<char>>, y: Seq<char>, x: Seq<char>)
    requires
        members.contains(x),
        x != y,
    ensures
        without(members, y).contains(x),
    decreases members.len(),
{
    let rest = without(members.drop_last(), y);
    if members.last() == x {
        assert(rest.push(x)[rest.len() as int] == x);
    } else {
        let j = choose|j: int| 0 <= j < members.len() && members[j] == x;
        assert(members.drop_last()[j] == x);
        lemma_without_keeps(members.drop_last(), y, x);
        let a = choose|a: int| 0 <= a < rest.len() && rest[a] == x;
        if members.last() != y {
            assert(rest.push(members.last())[a] == x);
        }
    }
}

proof fn lemma_in_workspace_has(all: Seq<Window>, i: int)
    requires
        0 <= i < all.len(),
    ensures
        in_workspace(all, all[i].workspace@).contains(all[i]),
    decreases all.len(),
{
    let x = all[i].workspace@;
    let rest = in_workspace(all.drop_last(), x);
    if i == all.len() - 1 {
        assert(rest.push(all.last())[rest.len() as int] == all[i]);
    } else {
        assert(all.drop_last()[i] == all[i]);
        lemma_in_workspace_has(all.drop_last(), i);
        let a = choose|a: int| 0 <= a < rest.len() && rest[a] == all[i];
        if all.last().workspace@ == x {
            assert(rest.push(all.last())[a] == all[i]);
        }
    }
}

proof fn lemma_sorted_windows_has(g: Seq<Window>, p: int)
    requires
        0 <= p < g.len(),
    ensures
        sorted_windows(g).contains(g[p]),
{
    let all = Seq::new(g.len(), |i: int| i);
    lemma_position_order(g);
    all.lemma_sort_by_ensures(position_leq(g));
    let sorted = all.sort_by(position_leq(g));
    assert(all[p] == p);
    vstd::seq_lib::to_multiset_contains(all, p);
    vstd::seq_lib::to_multiset_contains(sorted, p);
    let j = choose|j: int| 0 <= j < sorted.len() && sorted[j] == p;
    assert(sorted_windows(g)[j] == g[p]);
}

proof fn lemma_flat_has(groups: Seq<(Seq<char>, Seq<Window>)>, k: int, w: Window)
    requires
        0 <= k < groups.len(),
        groups[k].1.contains(w),
    ensures
        window_flat(groups).contains(w),
    decreases groups.len(),
{
    let before = window_flat(groups.drop_last());
    let last = groups.last().1;
    if k == groups.len() - 1 {
        let j = choose|j: int| 0 <= j < last.len() && last[j] == w;
        assert((before + last)[before.len() + j] == w);
    } else {
        assert(groups.drop_last()[k] == groups[k]);
        lemma_flat_has(groups.drop_last(), k, w);
        let a = choose|a: int| 0 <= a < before.len() && before[a] == w;
        assert((before + last)[a] == w);
    }
}

/// No window goes missing from the window list: every window listed gets a
/// line and a number, under its workspace.
pub proof fn lemma_every_window_listed(all: Seq<Window>, first: Seq<char>, i: int)
    requires
        0 <= i < all.len(),
    ensures
        window_flat(window_groups(all, first)).contains(all[i]),
{
    let x = all[i].workspace@;
    assert(has_workspace(all, x));
    lemma_workspace_names_exist(all);
    let names = workspace_names(all);
    let order = window_group_order(all, first);
    assert(names.contains(x));
    if has_workspace(all, first) {
        if x == first {
            assert(order[0] == x);
        } else {
            lemma_without_keeps(names, first, x);
            let rest = without(names, first);
            let a = choose|a: int| 0 <= a < rest.len() && rest[a] == x;
            assert(order[a + 1] == x);
        }
    } else {
        let a = choose|a: int| 0 <= a < names.len() && names[a] == x;
        assert(order[a] == x);
    }
    assert(order.contains(x));
    let k = choose|k: int| 0 <= k < order.len() && order[k] == x;
    let groups = window_groups(all, first);
    lemma_in_workspace_has(all, i);
    let g = in_workspace(all, x);
    let p = choose|p: int| 0 <= p < g.len() && g[p] == all[i];
    lemma_sorted_windows_has(g, p);
    assert(groups[k].1 == sorted_windows(g));
    lemma_flat_has(groups, k, all[i]);
}

/// How many listed windows are in a workspace.
pub open spec fn windows_counted(all: Seq<Window>, ws: Seq<char>) -> nat {
    all.filter(in_ws(ws)).len()
}

/// Whether a window is in a workspace.
pub open spec fn in_ws(ws: Seq<char>) -> spec_fn(Window) -> bool {
    |w: Window| w.workspace@ == ws
}

proof fn lemma_in_workspace_counted(all: Seq<Window>, x: Seq<char>)
    ensures
        in_workspace(all, x).len() == windows_counted(all, x),
    decreases all.len(),
{
    let pred = in_ws(x);
    if all.len() == 0 {
        reveal(Seq::filter);
        assert(all.filter(pred) =~= Seq::<Window>::empty());
    } else {
        lemma_in_workspace_counted(all.drop_last(), x);
        all.drop_last().lemma_filter_push(all.last(), pred);
        assert(all.drop_last().push(all.last()) =~= all);
    }
}

proof fn lemma_order_has(all: Seq<Window>, first: Seq<char>, x: Seq<char>)
    requires
        has_workspace(all, x),
    ensures
        window_group_order(all, first).contains(x),
{
    lemma_workspace_names_exist(all);
    let names = workspace_names(all);
    let order = window_group_order(all, first);
    assert(names.contains(x));
    if has_workspace(all, first) {
        if x == first {
            assert(order[0] == x);
        } else {
            lemma_without_keeps(names, first, x);
            let rest = without(names, first);
            let a = choose|a: int| 0 <= a < rest.len() && rest[a] == x;
            assert(order[a + 1] == x);
        }
    } else {
        let a = choose|a: int| 0 <= a < names.len() && names[a] == x;
        assert(order[a] == x);
    }
}

proof fn lemma_order_within(all: Seq<Window>, first: Seq<char>, k: int)
    requires
        0 <= k < window_group_order(all, first).len(),
    ensures
        has_workspace(all, window_group_order(all, first)[k]),
{
    lemma_workspace_names_exist(all);
    let names = workspace_names(all);
    let order = window_group_order(all, first);
    let x = order[k];
    if has_workspace(all, first) {
        if k > 0 {
            let rest = without(names, first);
            assert(x == rest[k - 1]);
            assert(rest.contains(x));
            lemma_without_within(names, first, x);
        }
    } else {
        assert(names[k] == x);
        assert(names.contains(x));
    }
}

proof fn lemma_items_headings(groups: Seq<(Seq<char>, Seq<Window>)>, all: Seq<Window>, k: int)
    requires
        0 <= k < groups.len(),
    ensures
        window_items(groups, all).contains(window_heading(groups[k].0, groups[k].1.len())),
    decreases groups.len(),
{
    let before = window_items(groups.drop_last(), all);
    let h = seq![window_heading(groups.last().0, groups.last().1.len())];
    let ms = groups.last().1;
    let tail = Seq::new(
        ms.len(),
        |m: int| window_item((group_total(groups.drop_last()) + m + 1) as nat, ms[m], all),
    );
    assert(window_items(groups, all) == before + h + tail);
    if k == groups.len() - 1 {
        assert((before + h + tail)[before.len() as int] == h[0]);
    } else {
        assert(groups.drop_last()[k] == groups[k]);
        lemma_items_headings(groups.drop_last(), all, k);
        let a = choose|a: int|
            0 <= a < before.len() && before[a] == window_heading(groups[k].0, groups[k].1.len());
        assert((before + h + tail)[a] == before[a]);
    }
}

/// Each workspace a listed window is in gets a heading in the window list,
/// and the heading gives the number of listed windows in that workspace.
pub proof fn lemma_heading_counts(all: Seq<Window>, first: Seq<char>, ws: Seq<char>)
    requires
        has_workspace(all, ws),
    ensures
        window_items(window_groups(all, first), all).contains(
            window_heading(ws, windows_counted(all, ws)),
        ),
{
    lemma_order_has(all, first, ws);
    let order = window_group_order(all, first);
    let k = choose|k: int| 0 <= k < order.len() && order[k] == ws;
    let groups = window_groups(all, first);
    assert(groups[k] == (ws, sorted_windows(in_workspace(all, ws))));
    lemma_sorted_windows_len(in_workspace(all, ws));
    lemma_in_workspace_counted(all, ws);
    lemma_items_headings(groups, all, k);
}

proof fn lemma_item_not_heading(n: nat, w: Window, all: Seq<Window>)
    ensures
        window_item(n, w, all)[0] != SEP@[0],
{
    reveal_strlit("──────");
    let d = decimal(n);
    crate::text::lemma_decimal_reads_back(n);
    let p = padded3(d);
    assert(window_item(n, w, all)[0] == p[0]);
    if d.len() < 3 {
        assert(p[0] == ' ');
    } else {
        assert(p[0] == d[0]);
        assert(crate::text::is_digit(d[0]));
    }
}

proof fn lemma_headings_counted_in(groups: Seq<(Seq<char>, Seq<Window>)>, all: Seq<Window>, i: int)
    requires
        0 <= i < window_items(groups, all).len(),
        window_items(groups, all)[i][0] == SEP@[0],
    ensures
        exists|k: int|
            0 <= k < groups.len() && window_items(groups, all)[i] == window_heading(
                groups[k].0,
                groups[k].1.len(),
            ),
    decreases groups.len(),
{
    let before = window_items(groups.drop_last(), all);
    let last = groups.len() - 1;
    let h = seq![window_heading(groups.last().0, groups.last().1.len())];
    let ms = groups.last().1;
    let tail = Seq::new(
        ms.len(),
        |m: int| window_item((group_total(groups.drop_last()) + m + 1) as nat, ms[m], all),
    );
    assert(window_items(groups, all) == before + h + tail);
    if i < before.len() {
        assert((before + h + tail)[i] == before[i]);
        lemma_headings_counted_in(groups.drop_last(), all, i);
        let k = choose|k: int|
            0 <= k < groups.drop_last().len() && before[i] == window_heading(
                groups.drop_last()[k].0,
                groups.drop_last()[k].1.len(),
            );
        assert(groups.drop_last()[k] == groups[k]);
    } else if i == before.len() {
        assert(window_items(groups, all)[i] == h[0]);
        assert(groups[last] == groups.last());
    } else {
        let m = i - before.len() - 1;
        assert(window_items(groups, all)[i] == tail[m]);
        lemma_item_not_heading((group_total(groups.drop_last()) + m + 1) as nat, ms[m], all);
    }
}

/// Every heading line of the window list names a workspace a listed window
/// is in, and gives the number of listed windows in it.
pub proof fn lemma_every_heading_counted(all: Seq<Window>, first: Seq<char>, i: int)
    requires
        0 <= i < window_items(window_groups(all, first), all).len(),
        window_items(window_groups(all, first), all)[i][0] == SEP@[0],
    ensures
        exists|ws: Seq<char>|
            has_workspace(all, ws) && window_items(window_groups(all, first), all)[i]
                == window_heading(ws, windows_counted(all, ws)),
{
    let groups = window_groups(all, first);
    lemma_headings_counted_in(groups, all, i);
    let k = choose|k: int|
        0 <= k < groups.len() && window_items(groups, all)[i] == window_heading(
            groups[k].0,
            groups[k].1.len(),
        );
    let ws = groups[k].0;
    lemma_order_within(all, first, k);
    lemma_sorted_windows_len(in_workspace(all, ws));
    lemma_in_workspace_counted(all, ws);
}

/// The number a chosen window line starts with, before its `·`.
pub open spec fn line_number(choice: Seq<char>) -> Option<nat> {
    match split_once_char(trim(choice), '\u{b7}') {
        Some((number, _)) => crate::text::parse_usize(trim(number)),
        None => None,
    }
}

/// A line whose first character is neither space nor digit nor `+` carries
/// no number.
proof fn lemma_unnumbered_line(c: Seq<char>)
    requires
        c.len() > 0,
        !crate::text::is_ws(c[0]),
        !crate::text::is_digit(c[0]),
        c[0] != '+',
    ensures
        line_number(c) is None,
{
    let w = crate::text::ws();
    crate::text::lemma_lead_is(c, w, 0);
    assert(trim_start(c) =~= c);
    crate::text::lemma_trail_bounded(c, w);
    if crate::text::trail(c, w) == c.len() {
        assert(w(c[0]));
    }
    let t = trim(c);
    assert(t.len() > 0 && t[0] == c[0]);
    crate::text::lemma_find_from(t, seq!['\u{b7}'], 0);
    match split_once_char(t, '\u{b7}') {
        Some((number, _)) => {
            if number.len() > 0 {
                assert(number[0] == c[0]);
                crate::text::lemma_lead_is(number, w, 0);
                assert(trim_start(number) =~= number);
                crate::text::lemma_trail_bounded(number, w);
                if crate::text::trail(number, w) == number.len() {
                    assert(w(number[0]));
                }
                let n = trim(number);
                assert(n.len() > 0 && n[0] == c[0]);
                assert(!crate::text::all_digits(n));
            } else {
                assert(trim(number).len() == 0) by {
                    crate::text::lemma_lead_bounded(number, w);
                }
            }
        },
        None => {},
    }
}

/// A heading of the window list names no window.
pub proof fn lemma_heading_names_no_window(ws: Seq<char>, n: nat)
    ensures
        line_number(window_heading(ws, n)) is None,
{
    reveal_strlit("──────");
    let h = window_heading(ws, n);
    assert(h[0] == '─');
    lemma_unnumbered_line(h);
}

/// Each line of the window list reads back as its own number, which is how
/// `window_for` finds the window a chosen line was written for.
#[verifier::spinoff_prover]
#[verifier::rlimit(40)]
pub proof fn lemma_item_number(n: nat, w: Window, all: Seq<Window>)
    requires
        1 <= n <= usize::MAX,
    ensures
        line_number(window_item(n, w, all)) == Some(n),
{
    let d = decimal(n);
    crate::text::lemma_decimal_reads_back(n);
    let p = padded3(d);
    let k: int = p.len() - d.len();
    let tail = " \u{b7} "@ + w.app@ + " — "@ + window_shown(w, all);
    let item = window_item(n, w, all);
    reveal_strlit(" \u{b7} ");
    assert(item =~= p + tail);
    assert(tail[0] == ' ' && tail[1] == '\u{b7}' && tail[2] == ' ');
    assert(p =~= Seq::new(k as nat, |i: int| ' ') + d);
    assert(crate::text::is_digit(d[0]));
    assert forall|j: int| 0 <= j < k implies (crate::text::ws())(#[trigger] item[j]) by {
        assert(item[j] == ' ');
    }
    assert(item[k] == d[0]);
    crate::text::lemma_lead_is(item, crate::text::ws(), k);
    let ts = trim_start(item);
    assert(ts =~= d + tail);
    let m: int = d.len() as int + 1;
    assert(ts[m] == '\u{b7}');
    crate::text::lemma_trail_bounded(ts, crate::text::ws());
    let t = trim(item);
    assert(t =~= ts.take(ts.len() - crate::text::trail(ts, crate::text::ws())));
    assert(t.len() > m);
    assert forall|j: int| 0 <= j < m implies !#[trigger] crate::text::occurs_at(t, seq!['\u{b7}'], j) by {
        crate::text::lemma_occurs_single(t, '\u{b7}', j);
        assert(t[j] == ts[j]);
        if j < d.len() {
            assert(crate::text::is_digit(d[j]));
        }
    }
    crate::text::lemma_occurs_single(t, '\u{b7}', m);
    crate::text::lemma_find_unique(t, seq!['\u{b7}'], 0, m);
    let number = t.take(m);
    assert(number =~= d.push(' '));
    crate::text::lemma_lead_is(number, crate::text::ws(), 0);
    assert(crate::text::is_digit(d[d.len() - 1]));
    crate::text::lemma_trail_is(number, crate::text::ws(), d.len() as int);
    assert(trim_start(number) =~= number);
    assert(trim(number) =~= d);
}

impl WindowMenu {
    pub open spec fn window_named(&self, choice: Seq<char>) -> Option<Window> {
        match line_number(choice) {
            Some(n) => if 1 <= n <= self.numbered().len() {
                Some(self.numbered()[n - 1])
            } else {
                None
            },
            None => None,
        }
    }

    /// The line the list writes for its `n`th window, handed back, names
    /// that window.
    pub proof fn lemma_line_names_its_window(&self, n: nat, w: Window, all: Seq<Window>)
        requires
            1 <= n <= self.numbered().len(),
            n <= usize::MAX,
        ensures
            self.window_named(window_item(n, w, all)) == Some(self.numbered()[n - 1]),
    {
        lemma_item_number(n, w, all);
    }

    /// The window a chosen line refers to. Headings carry no index.
    pub fn window_for(&self, choice: &str) -> (r: Option<&Window>)
        ensures
            match r {
                Some(w) => self.window_named(choice@) == Some(*w),
                None => self.window_named(choice@) is None,
            },
    {
        let c = trim_chars(chars_of(choice).as_slice());
        let (number, _) = match split_once_char_exec(c.as_slice(), '\u{b7}') {
            Some(parts) => parts,
            None => return None,
        };
        let n = match crate::text::parse_usize_exec(trim_chars(number.as_slice()).as_slice()) {
            Some(n) => n,
            None => return None,
        };
        if n >= 1 && n <= self.by_index.len() {
            Some(&self.by_index[n - 1])
        } else {
            None
        }
    }

    /// The windows chosen lines refer to, in the order chosen.
    pub fn windows_for(&self, choices: &[String]) -> (r: Vec<Window>)
        ensures
            r@ == choices@.map_values(|c: String| self.window_named(c@)).filter(
                |o: Option<Window>| o is Some,
            ).map_values(|o: Option<Window>| o.unwrap()),
    {
        let ghost f = |c: String| self.window_named(c@);
        let ghost keep = |o: Option<Window>| o is Some;
        let ghost un = |o: Option<Window>| o.unwrap();
        let mut r: Vec<Window> = Vec::new();
        let mut i: usize = 0;
        while i < choices.len()
            invariant
                i <= choices@.len(),
                f == (|c: String| self.window_named(c@)),
                keep == (|o: Option<Window>| o is Some),
                un == (|o: Option<Window>| o.unwrap()),
                r@ == choices@.take(i as int).map_values(f).filter(keep).map_values(un),
            decreases choices.len() - i,
        {
            let ghost before = r@;
            proof {
                let t = choices@.take(i + 1).map_values(f);
                assert(t =~= choices@.take(i as int).map_values(f).push(f(choices@[i as int])));
                choices@.take(i as int).map_values(f).lemma_filter_push(f(choices@[i as int]), keep);
            }
            match self.window_for(choices[i].as_str()) {
                Some(w) => {
                    r.push(w.duplicate());
                    proof {
                        let base = choices@.take(i as int).map_values(f).filter(keep);
                        assert(base.push(Some(*w)).map_values(un) =~= base.map_values(un).push(*w));
                    }
                },
                None => {},
            }
            i += 1;
        }
        assert(choices@.take(choices@.len() as int) =~= choices@);
        r
    }
}

} // verus!
