//! Asking the question: the `Prompt` a front end answers, and the text that
//! goes to and comes back from the AppleScript dialog drawn through System
//! Events.
//!
//! sling is launched by AeroSpace's `exec-and-forget`, which has no GUI
//! context, so a bare `osascript` dialog never appears. Handing the dialog to
//! System Events — an application already running that can come to the front —
//! is what puts it on screen. Running `osascript` is the program's business;
//! what it is told and what it says back are worked out here.
use vstd::prelude::*;

use crate::picker::{names_row, opt_text, render_row, rendered, row_id_for, row_views, Row, RowView};
use crate::text::{
    chars_of, split_char, split_char_exec, string_of, trim, trim_chars, trim_end, trim_end_chars,
    views,
};

verus! {

/// Joins a multi-selection on the way back. A plain list comes back
/// comma-separated, which is ambiguous the moment a window title contains a
/// comma — and plenty do.
pub const UNIT_SEPARATOR: char = '\u{1f}';

/// What sling asks of a front end. Each question's answer is up to the front
/// end — a person picks, or cancels — so each method says only that its
/// answer is one the front end may give to that question: the `*_answer`
/// relations. By default they allow any answer; a front end that promises
/// more may narrow them. Code written against the trait cannot see either
/// way, so what it states holds whatever the front end answers.
pub trait Prompt {
    /// Whether the front end may answer `choose_item` on these lines with `answer`.
    open spec fn item_answer(
        &self,
        items: Seq<Seq<char>>,
        title: Seq<char>,
        prompt: Seq<char>,
        answer: Option<Seq<char>>,
    ) -> bool {
        true
    }

    fn choose_item(&self, items: &[String], title: &str, prompt: &str) -> (r: Option<String>)
        ensures
            self.item_answer(views(items@), title@, prompt@, opt_text(r)),
    ;

    /// Whether the front end may answer `choose_rows` on these rows with `answer`.
    open spec fn rows_answer(
        &self,
        rows: Seq<RowView>,
        title: Seq<char>,
        subtitle: Seq<char>,
        answer: Option<Seq<char>>,
    ) -> bool {
        true
    }

    /// The same question, with the rows still in pieces.
    ///
    /// A front end that can lay out its own columns wants the parts; one that
    /// can only take flat strings answers with [`rows_by_items`], which
    /// renders them and falls back. Callers should prefer this.
    fn choose_rows(&self, rows: &[Row], title: &str, subtitle: &str) -> (r: Option<String>)
        ensures
            self.rows_answer(row_views(rows@), title@, subtitle@, opt_text(r)),
    ;

    /// Whether the front end may answer `choose_many_rows` with `answer`.
    open spec fn many_rows_answer(
        &self,
        rows: Seq<RowView>,
        title: Seq<char>,
        subtitle: Seq<char>,
        answer: Option<Seq<Seq<char>>>,
    ) -> bool {
        true
    }

    /// Several rows at once; see [`many_rows_by_items`] for flat front ends.
    fn choose_many_rows(&self, rows: &[Row], title: &str, subtitle: &str) -> (r: Option<
        Vec<String>,
    >)
        ensures
            self.many_rows_answer(row_views(rows@), title@, subtitle@, opt_views(r)),
    ;

    /// Whether the front end may answer `choose_board` with `answer`.
    open spec fn board_answer(
        &self,
        rows: Seq<RowView>,
        title: Seq<char>,
        subtitle: Seq<char>,
        answer: Option<Seq<Seq<char>>>,
    ) -> bool {
        true
    }

    /// The board's question. A front end that can draw the board answers
    /// with one line per drag; anything else answers with the one row picked,
    /// through [`board_by_rows`].
    fn choose_board(&self, rows: &[Row], title: &str, subtitle: &str) -> (r: Option<Vec<String>>)
        ensures
            self.board_answer(row_views(rows@), title@, subtitle@, opt_views(r)),
    ;

    /// Whether the front end may answer `choose_many` with `answer`.
    open spec fn many_answer(
        &self,
        items: Seq<Seq<char>>,
        title: Seq<char>,
        prompt: Seq<char>,
        answer: Option<Seq<Seq<char>>>,
    ) -> bool {
        true
    }

    /// Several lines at once. `None` when cancelled or nothing was selected.
    fn choose_many(&self, items: &[String], title: &str, prompt: &str) -> (r: Option<Vec<String>>)
        ensures
            self.many_answer(views(items@), title@, prompt@, opt_views(r)),
    ;

    /// Whether the front end may answer `ask_text` with `answer`.
    open spec fn text_answer(&self, title: Seq<char>, prompt: Seq<char>, answer: Option<Seq<char>>) -> bool {
        true
    }

    fn ask_text(&self, title: &str, prompt: &str) -> (r: Option<String>)
        ensures
            self.text_answer(title@, prompt@, opt_text(r)),
    ;
}

/// A list of texts that may be missing, as text.
pub open spec fn opt_views(o: Option<Vec<String>>) -> Option<Seq<Seq<char>>> {
    match o {
        Some(v) => Some(views(v@)),
        None => None,
    }
}

/// Every row as the flat list shows it, as text.
pub open spec fn rendered_lines(rows: Seq<RowView>) -> Seq<Seq<char>> {
    rows.map_values(|r: RowView| rendered(r))
}

/// `choose_rows` for a front end that can only show flat lines: the rows
/// rendered, asked through `choose_item`, and the line picked mapped back to
/// the first row it names.
pub fn rows_by_items<P: Prompt>(p: &P, rows: &[Row], title: &str, subtitle: &str) -> (r: Option<String>)
    ensures
        exists|line: Option<Seq<char>>|
            #[trigger] p.item_answer(rendered_lines(row_views(rows@)), title@, subtitle@, line)
                && opt_text(r) == match line {
                Some(c) => id_named(row_views(rows@), c),
                None => None,
            },
        r matches Some(id) ==> exists|k: int|
            0 <= k < rows@.len() && #[trigger] rows@[k]@.id == id@,
{
    let items = rendered_items(rows);
    assert(views(items@) =~= rendered_lines(row_views(rows@)));
    let answer = p.choose_item(items.as_slice(), title, subtitle);
    let ghost line = opt_text(answer);
    match answer {
        Some(chosen) => {
            let r = first_row_id(rows, chosen.as_str());
            proof {
                lemma_id_named_is_row(row_views(rows@), chosen@);
                if r is Some {
                    let k = choose|k: int|
                        0 <= k < rows@.len() && #[trigger] row_views(rows@)[k].id == r->0@;
                    assert(rows@[k]@ == row_views(rows@)[k]);
                }
                assert(p.item_answer(rendered_lines(row_views(rows@)), title@, subtitle@, line));
            }
            r
        },
        None => {
            assert(p.item_answer(rendered_lines(row_views(rows@)), title@, subtitle@, line));
            None
        },
    }
}

/// `choose_many_rows` for a flat front end: the rows rendered, asked through
/// `choose_many`, and each line picked mapped back to the row it names.
pub fn many_rows_by_items<P: Prompt>(p: &P, rows: &[Row], title: &str, subtitle: &str) -> (r: Option<
    Vec<String>,
>)
    ensures
        exists|lines: Option<Seq<Seq<char>>>|
            #[trigger] p.many_answer(rendered_lines(row_views(rows@)), title@, subtitle@, lines)
                && opt_views(r) == match lines {
                Some(ls) => Some(ids_named(row_views(rows@), ls)),
                None => None,
            },
{
    let items = rendered_items(rows);
    assert(views(items@) =~= rendered_lines(row_views(rows@)));
    let answer = p.choose_many(items.as_slice(), title, subtitle);
    let ghost lines = opt_views(answer);
    match answer {
        Some(chosen) => {
            let ids = row_ids_for(rows, chosen.as_slice());
            assert(p.many_answer(rendered_lines(row_views(rows@)), title@, subtitle@, lines));
            Some(ids)
        },
        None => {
            assert(p.many_answer(rendered_lines(row_views(rows@)), title@, subtitle@, lines));
            None
        },
    }
}

/// `choose_board` for a front end that cannot draw the board: the one row
/// picked, asked through `choose_rows`.
pub fn board_by_rows<P: Prompt>(p: &P, rows: &[Row], title: &str, subtitle: &str) -> (r: Option<
    Vec<String>,
>)
    ensures
        exists|answer: Option<Seq<char>>|
            #[trigger] p.rows_answer(row_views(rows@), title@, subtitle@, answer) && opt_views(r)
                == match answer {
                Some(id) => Some(seq![id]),
                None => None,
            },
{
    let answer = p.choose_rows(rows, title, subtitle);
    let ghost a = opt_text(answer);
    match answer {
        Some(id) => {
            let v = vec![id];
            assert(views(v@) =~= seq![a->0]);
            assert(p.rows_answer(row_views(rows@), title@, subtitle@, a));
            Some(v)
        },
        None => {
            assert(p.rows_answer(row_views(rows@), title@, subtitle@, a));
            None
        },
    }
}

/// Every row as the flat list shows it.
pub fn rendered_items(rows: &[Row]) -> (r: Vec<String>)
    ensures
        r@.len() == rows@.len(),
        forall|k: int| 0 <= k < rows@.len() ==> #[trigger] r@[k]@ == rendered(rows@[k]@),
{
    let mut r: Vec<String> = Vec::new();
    let mut i: usize = 0;
    while i < rows.len()
        invariant
            i <= rows@.len(),
            r@.len() == i,
            forall|k: int| 0 <= k < i ==> #[trigger] r@[k]@ == rendered(rows@[k]@),
        decreases rows.len() - i,
    {
        r.push(render_row(&rows[i]));
        i += 1;
    }
    r
}

/// The id of the first row a chosen line names, if any.
pub open spec fn id_named(rows: Seq<RowView>, chosen: Seq<char>) -> Option<Seq<char>>
    decreases rows.len(),
{
    if rows.len() == 0 {
        None
    } else if names_row(rows[0], chosen) {
        Some(rows[0].id)
    } else {
        id_named(rows.drop_first(), chosen)
    }
}

/// The ids a multi-selection names, in the order picked, leaving out the
/// lines that name no row.
pub open spec fn ids_named(rows: Seq<RowView>, chosen: Seq<Seq<char>>) -> Seq<Seq<char>>
    decreases chosen.len(),
{
    if chosen.len() == 0 {
        Seq::<Seq<char>>::empty()
    } else {
        let rest = ids_named(rows, chosen.drop_last());
        match id_named(rows, chosen.last()) {
            Some(id) => rest.push(id),
            None => rest,
        }
    }
}

/// A named id is the id of one of the rows.
pub proof fn lemma_id_named_is_row(rows: Seq<RowView>, chosen: Seq<char>)
    ensures
        id_named(rows, chosen) matches Some(id) ==> exists|k: int|
            0 <= k < rows.len() && #[trigger] rows[k].id == id,
    decreases rows.len(),
{
    if rows.len() > 0 && !names_row(rows[0], chosen) {
        let rest = rows.drop_first();
        lemma_id_named_is_row(rest, chosen);
        if id_named(rest, chosen) is Some {
            let k = choose|k: int| 0 <= k < rest.len() && #[trigger] rest[k].id == id_named(rest, chosen)->0;
            assert(rows[k + 1] == rest[k]);
        }
    } else if rows.len() > 0 {
        assert(rows[0].id == id_named(rows, chosen)->0);
    }
}

/// Every id a multi-selection names is the id of one of the rows.
pub proof fn lemma_ids_named_are_rows(rows: Seq<RowView>, chosen: Seq<Seq<char>>)
    ensures
        forall|i: int|
            0 <= i < ids_named(rows, chosen).len() ==> exists|k: int|
                0 <= k < rows.len() && #[trigger] rows[k].id == #[trigger] ids_named(rows, chosen)[i],
    decreases chosen.len(),
{
    if chosen.len() > 0 {
        let front = chosen.drop_last();
        lemma_ids_named_are_rows(rows, front);
        lemma_id_named_is_row(rows, chosen.last());
        let rest = ids_named(rows, front);
        assert forall|i: int| 0 <= i < ids_named(rows, chosen).len() implies exists|k: int|
            0 <= k < rows.len() && #[trigger] rows[k].id == #[trigger] ids_named(rows, chosen)[i] by {
            if i < rest.len() {
                assert(ids_named(rows, chosen)[i] == rest[i]);
            } else {
                assert(ids_named(rows, chosen)[i] == id_named(rows, chosen.last())->0);
            }
        }
    }
}

proof fn lemma_id_named_first(rows: Seq<RowView>, chosen: Seq<char>, k: int)
    requires
        0 <= k < rows.len(),
        names_row(rows[k], chosen),
        forall|j: int| 0 <= j < k ==> !names_row(#[trigger] rows[j], chosen),
    ensures
        id_named(rows, chosen) == Some(rows[k].id),
    decreases k,
{
    if k > 0 {
        let rest = rows.drop_first();
        assert forall|j: int| 0 <= j < k - 1 implies !names_row(#[trigger] rest[j], chosen) by {
            assert(rest[j] == rows[j + 1]);
        }
        assert(rest[k - 1] == rows[k]);
        lemma_id_named_first(rest, chosen, k - 1);
    }
}

proof fn lemma_id_named_none(rows: Seq<RowView>, chosen: Seq<char>)
    requires
        forall|j: int| 0 <= j < rows.len() ==> !names_row(#[trigger] rows[j], chosen),
    ensures
        id_named(rows, chosen) is None,
    decreases rows.len(),
{
    if rows.len() > 0 {
        let rest = rows.drop_first();
        assert forall|j: int| 0 <= j < rest.len() implies !names_row(#[trigger] rest[j], chosen) by {
            assert(rest[j] == rows[j + 1]);
        }
        lemma_id_named_none(rest, chosen);
    }
}

/// The id of the first row a chosen line names.
pub fn first_row_id(rows: &[Row], chosen: &str) -> (r: Option<String>)
    ensures
        opt_text(r) == id_named(row_views(rows@), chosen@),
{
    let r = row_id_for(rows, chosen);
    proof {
        let vs = row_views(rows@);
        match opt_text(r) {
            Some(idv) => {
                let k = choose|k: int|
                    0 <= k < rows@.len() && names_row(rows@[k]@, chosen@) && (forall|j: int|
                        0 <= j < k ==> !names_row(#[trigger] rows@[j]@, chosen@)) && idv
                        == rows@[k]@.id;
                assert forall|j: int| 0 <= j < k implies !names_row(#[trigger] vs[j], chosen@) by {
                    assert(vs[j] == rows@[j]@);
                }
                lemma_id_named_first(vs, chosen@, k);
            },
            None => {
                assert forall|j: int| 0 <= j < vs.len() implies !names_row(
                    #[trigger] vs[j],
                    chosen@,
                ) by {
                    assert(vs[j] == rows@[j]@);
                }
                lemma_id_named_none(vs, chosen@);
            },
        }
    }
    r
}

/// The ids of the rows a multi-selection names, in the order picked; a line
/// that names no row is dropped.
pub fn row_ids_for(rows: &[Row], chosen: &[String]) -> (r: Vec<String>)
    ensures
        views(r@) == ids_named(row_views(rows@), views(chosen@)),
{
    let ghost vs = row_views(rows@);
    let mut r: Vec<String> = Vec::new();
    let mut i: usize = 0;
    while i < chosen.len()
        invariant
            i <= chosen@.len(),
            vs == row_views(rows@),
            views(r@) == ids_named(vs, views(chosen@).take(i as int)),
        decreases chosen.len() - i,
    {
        proof {
            assert(views(chosen@).take(i + 1).drop_last() =~= views(chosen@).take(i as int));
        }
        let ghost before = r@;
        match first_row_id(rows, chosen[i].as_str()) {
            Some(id) => {
                r.push(id);
                assert(views(r@) =~= views(before).push(r@.last()@));
            },
            None => {},
        }
        i += 1;
    }
    assert(views(chosen@).take(chosen@.len() as int) =~= views(chosen@));
    r
}

/// One character as it must be written inside an AppleScript literal.
pub open spec fn escaped_char(c: char) -> Seq<char> {
    if c == '\\' {
        seq!['\\', '\\']
    } else if c == '"' {
        seq!['\\', '"']
    } else {
        seq![c]
    }
}

/// A string as it must be written inside an AppleScript literal.
pub open spec fn escaped(s: Seq<char>) -> Seq<char>
    decreases s.len(),
{
    if s.len() == 0 {
        Seq::<char>::empty()
    } else {
        escaped(s.drop_last()) + escaped_char(s.last())
    }
}

/// Escape a string for interpolation into an AppleScript literal.
///
/// Window titles carry quotes and the occasional backslash. Unescaped, they end
/// the literal early, the script fails to compile, and the dialog silently
/// never appears.
pub fn applescript_string(value: &str) -> (r: String)
    ensures
        r@ == escaped(value@),
{
    let s = chars_of(value);
    let mut out: Vec<char> = Vec::new();
    let mut i: usize = 0;
    while i < s.len()
        invariant
            i <= s@.len(),
            s@ == value@,
            out@ == escaped(s@.take(i as int)),
        decreases s.len() - i,
    {
        proof {
            assert(s@.take(i + 1).drop_last() =~= s@.take(i as int));
        }
        let c = s[i];
        if c == '\\' {
            out.push('\\');
            out.push('\\');
        } else if c == '"' {
            out.push('\\');
            out.push('"');
        } else {
            out.push(c);
        }
        proof {
            assert(out@ =~= escaped(s@.take(i as int)) + escaped_char(c));
        }
        i += 1;
    }
    assert(s@.take(s@.len() as int) =~= s@);
    string_of(out.as_slice())
}

/// What `osascript` printed, as an answer: only the trailing newline goes,
/// because leading spaces are meaningful — they are how an unoccupied
/// workspace is indented in the menu. Nothing printed means cancelled.
pub fn dialog_answer(printed: &str) -> (r: Option<String>)
    ensures
        trim_end(printed@).len() == 0 <==> r is None,
        r matches Some(t) ==> t@ == trim_end(printed@),
{
    let text = trim_end_chars(chars_of(printed).as_slice());
    if text.len() == 0 {
        None
    } else {
        Some(string_of(text.as_slice()))
    }
}

/// The lines of a multi-selection: split on the unit separator, trimmed,
/// blanks dropped.
pub open spec fn picked_lines(answer: Seq<char>) -> Seq<Seq<char>> {
    split_char(answer, UNIT_SEPARATOR).map_values(|p: Seq<char>| trim(p)).filter(
        |p: Seq<char>| p.len() > 0,
    )
}

/// Read a multi-selection back; `None` when nothing was selected.
pub fn picked_from(answer: &str) -> (r: Option<Vec<String>>)
    ensures
        picked_lines(answer@).len() == 0 <==> r is None,
        r matches Some(v) ==> views(v@) == picked_lines(answer@),
{
    let pieces = split_char_exec(chars_of(answer).as_slice(), UNIT_SEPARATOR);
    let ghost all = split_char(answer@, UNIT_SEPARATOR).map_values(|p: Seq<char>| trim(p));
    let ghost keep = |p: Seq<char>| p.len() > 0;
    let mut out: Vec<String> = Vec::new();
    let mut i: usize = 0;
    while i < pieces.len()
        invariant
            i <= pieces@.len(),
            pieces@.len() == all.len(),
            all == split_char(answer@, UNIT_SEPARATOR).map_values(|p: Seq<char>| trim(p)),
            keep == (|p: Seq<char>| p.len() > 0),
            forall|k: int| 0 <= k < pieces@.len() ==> trim(#[trigger] pieces@[k]@) == all[k],
            views(out@) == all.take(i as int).filter(keep),
        decreases pieces.len() - i,
    {
        proof {
            assert(all.take(i + 1) =~= all.take(i as int).push(all[i as int]));
            all.take(i as int).lemma_filter_push(all[i as int], keep);
        }
        let piece = trim_chars(pieces[i].as_slice());
        if piece.len() > 0 {
            let ghost before = out@;
            out.push(string_of(piece.as_slice()));
            assert(views(out@) =~= views(before).push(piece@));
        }
        i += 1;
    }
    assert(all.take(all.len() as int) =~= all);
    if out.len() == 0 {
        None
    } else {
        Some(out)
    }
}

} // verus!
