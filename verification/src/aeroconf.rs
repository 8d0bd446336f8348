//! Writing `persistent-workspaces` into AeroSpace's own config.
//!
//! AeroSpace forgets a workspace once it is empty and off screen. `known` and
//! `seen.json` existed to work around that: lists sling kept so a task could be
//! offered before anything was in it. `persistent-workspaces` does the job
//! properly — the workspace genuinely exists, so it appears in AeroSpace's menu
//! bar, can be switched to, and needs no remembering on our side.
//!
//! It is static config, so sling maintains it. Only the block between the
//! markers is touched; the rest of the file is left exactly as it was. Reading
//! and writing the file is the program's business; the new text is made here.
use vstd::prelude::*;

use crate::text::{
    append_chars, chars_of, find, find_chars, has_char, has_char_exec, lemma_find_from, lines,
    lines_exec, line_at, slice_of, split_char, starts_with, starts_with_chars, string_of, trim,
    trim_chars, trim_end, trim_end_chars, trim_start, trim_start_chars, occurs_at, first_index,
    lemma_first_index, lemma_first_index_is, lemma_find_none,
};
use crate::lined::{joined, last_solid, lemma_joined_append, lemma_joined_one, plain_line};

verus! {

pub const BEGIN: &'static str = "# slingr:begin — managed by `slingr sync`, edits here are overwritten";

pub const END: &'static str = "# slingr:end";

// ---------------------------------------------------------------------------
// Where each line starts
// ---------------------------------------------------------------------------

/// Where line `k` starts, counting each earlier line and one newline after
/// it — the way the lines are walked, so a `\r` that `lines` dropped is not
/// counted.
pub open spec fn line_start(ls: Seq<Seq<char>>, k: int) -> int
    decreases k,
{
    if k <= 0 {
        0
    } else {
        line_start(ls, k - 1) + ls[k - 1].len() + 1
    }
}

proof fn lemma_line_start_prefix(p: Seq<Seq<char>>, q: Seq<Seq<char>>, k: int)
    requires
        0 <= k <= p.len(),
        k <= q.len(),
        forall|j: int| 0 <= j < k ==> p[j] == q[j],
    ensures
        line_start(p, k) == line_start(q, k),
    decreases k,
{
    if k > 0 {
        lemma_line_start_prefix(p, q, k - 1);
    }
}

proof fn lemma_split_total(s: Seq<char>, c: char)
    ensures
        line_start(split_char(s, c), split_char(s, c).len() - 1) + split_char(s, c).last().len()
            == s.len(),
    decreases s.len(),
{
    crate::text::lemma_split_char_nonempty(s, c);
    if s.len() > 0 {
        let rest = split_char(s.drop_last(), c);
        lemma_split_total(s.drop_last(), c);
        crate::text::lemma_split_char_nonempty(s.drop_last(), c);
        let p = split_char(s, c);
        if s.last() == c {
            assert(p == rest.push(Seq::<char>::empty()));
            lemma_line_start_prefix(p, rest, rest.len() as int);
            assert(line_start(p, rest.len() as int) == line_start(rest, rest.len() - 1) + rest.last().len() + 1);
        } else {
            lemma_line_start_prefix(p, rest, rest.len() - 1);
        }
    }
}

proof fn lemma_line_start_mono(p: Seq<Seq<char>>, k: int, m: int)
    requires
        0 <= k <= m < p.len(),
    ensures
        line_start(p, k) + p[k].len() <= line_start(p, m) + p[m].len(),
    decreases m - k,
{
    if k < m {
        lemma_line_start_mono(p, k + 1, m);
    }
}

proof fn lemma_line_start_le(ls: Seq<Seq<char>>, p: Seq<Seq<char>>, k: int)
    requires
        0 <= k <= ls.len(),
        k <= p.len(),
        forall|j: int| 0 <= j < k ==> ls[j].len() <= p[j].len(),
    ensures
        line_start(ls, k) <= line_start(p, k),
    decreases k,
{
    if k > 0 {
        lemma_line_start_le(ls, p, k - 1);
    }
}

/// Every line ends inside the text it came from.
pub proof fn lemma_line_in_text(s: Seq<char>, k: int)
    requires
        0 <= k < lines(s).len(),
    ensures
        0 <= line_start(lines(s), k),
        line_start(lines(s), k) + lines(s)[k].len() <= s.len(),
{
    let p = split_char(s, '\n');
    let ls = lines(s);
    crate::text::lemma_split_char_nonempty(s, '\n');
    lemma_split_total(s, '\n');
    assert forall|j: int| 0 <= j <= k implies ls[j].len() <= p[j].len() by {
        assert(ls[j] == line_at(p, j));
    }
    lemma_line_start_le(ls, p, k);
    lemma_line_start_le(ls, p, k + 1);
    lemma_line_start_mono(p, k, p.len() - 1);
    lemma_line_start_nonneg(ls, k);
}

proof fn lemma_line_start_nonneg(ls: Seq<Seq<char>>, k: int)
    ensures
        0 <= line_start(ls, k),
    decreases k,
{
    if k > 0 {
        lemma_line_start_nonneg(ls, k - 1);
    }
}

// ---------------------------------------------------------------------------
// A hand-written list
// ---------------------------------------------------------------------------

/// Where the managed block is: from the first `BEGIN` to just past the first
/// `END`, when both are there.
pub open spec fn managed_span(text: Seq<char>) -> Option<(int, int)> {
    match (find(text, BEGIN@), find(text, END@)) {
        (Some(f), Some(t)) => Some((f, t + END@.len())),
        _ => None,
    }
}

/// Whether a line starts a `persistent-workspaces` key.
pub open spec fn key_line(l: Seq<char>) -> bool {
    starts_with(trim_start(l), "persistent-workspaces"@)
}

/// Whether a line starting at `start` is inside the managed block.
pub open spec fn inside(span: Option<(int, int)>, start: int) -> bool {
    match span {
        Some((f, t)) => start >= f && start < t,
        None => false,
    }
}

/// What the walk over the lines has kept so far, and whether it is in the
/// middle of skipping a list.
pub type Pass = (Seq<char>, bool);

/// One line of the walk.
pub open spec fn pass_line(st: Pass, line: Seq<char>, start: int, span: Option<(int, int)>) -> Pass {
    if st.1 {
        // The array ends at the first line that closes it.
        (st.0, !starts_with(trim_start(line), "]"@))
    } else if !inside(span, start) && key_line(line) {
        // Single line form closes on the same line.
        (st.0, !has_char(line, ']'))
    } else {
        (st.0 + line + "\n"@, false)
    }
}

/// The walk over the first `k` lines.
pub open spec fn pass_lines(ls: Seq<Seq<char>>, k: int, span: Option<(int, int)>) -> Pass
    decreases k,
{
    if k <= 0 {
        (Seq::<char>::empty(), false)
    } else {
        pass_line(pass_lines(ls, k - 1, span), ls[k - 1], line_start(ls, k - 1), span)
    }
}

/// The text with every `persistent-workspaces` array outside the managed
/// block taken out, each line ending in a newline.
pub open spec fn without_unmanaged_text(text: Seq<char>) -> Seq<char> {
    pass_lines(lines(text), lines(text).len() as int, managed_span(text)).0
}

/// Remove a `persistent-workspaces` array that is not inside the managed
/// block. TOML rejects the whole file for a duplicate key, so a hand-written
/// one has to be absorbed rather than added to.
fn without_unmanaged(text: &[char]) -> (r: Vec<char>)
    ensures
        r@ == without_unmanaged_text(text@),
{
    let size = text.len();
    let begin = chars_of(BEGIN);
    let end = chars_of(END);
    let managed_from = find_chars(text, begin.as_slice());
    let managed_to = find_chars(text, end.as_slice());
    let ghost span = managed_span(text@);
    let (has_span, from, to) = match (managed_from, managed_to) {
        (Some(f), Some(t)) => {
            proof {
                lemma_find_from(text@, END@, 0);
                assert(occurs_at(text@, END@, t as int));
            }
            (true, f, t + end.len())
        },
        _ => (false, 0, 0),
    };
    let ls = lines_exec(text);
    let ghost lv = lines(text@);
    let close = chars_of("]");
    let key = chars_of("persistent-workspaces");
    let mut out: Vec<char> = Vec::new();
    let mut skipping = false;
    let mut start: usize = 0;
    let mut i: usize = 0;
    while i < ls.len()
        invariant
            i <= ls@.len(),
            ls@.len() == lv.len(),
            lv == lines(text@),
            forall|k: int| 0 <= k < ls@.len() ==> #[trigger] ls@[k]@ == lv[k],
            span == managed_span(text@),
            size == text@.len(),
            has_span <==> span is Some,
            has_span ==> span == Some((from as int, to as int)),
            close@ == "]"@,
            key@ == "persistent-workspaces"@,
            i < ls@.len() ==> start as int == line_start(lv, i as int),
            (out@, skipping) == pass_lines(lv, i as int, span),
        decreases ls.len() - i,
    {
        let line = &ls[i];
        proof {
            lemma_line_in_text(text@, i as int);
        }
        let inside = has_span && start >= from && start < to;
        let lead = trim_start_chars(line.as_slice());
        if skipping {
            if starts_with_chars(lead.as_slice(), close.as_slice()) {
                skipping = false;
            }
        } else if !inside && starts_with_chars(lead.as_slice(), key.as_slice()) {
            skipping = !has_char_exec(line.as_slice(), ']');
        } else {
            append_chars(&mut out, line.as_slice());
            out.push('\n');
            proof {
                reveal_strlit("\n");
                assert(out@ =~= pass_lines(lv, i as int, span).0 + lv[i as int] + "\n"@);
            }
        }
        if i + 1 < ls.len() {
            proof {
                lemma_line_in_text(text@, i + 1);
                assert(line_start(lv, i + 1) == line_start(lv, i as int) + lv[i as int].len() + 1);
            }
            start = start + line.len() + 1;
        }
        i += 1;
    }
    out
}

// ---------------------------------------------------------------------------
// The managed block
// ---------------------------------------------------------------------------

/// One quoted entry per name, each on its own line.
pub open spec fn entries(names: Seq<Seq<char>>) -> Seq<char>
    decreases names.len(),
{
    if names.len() == 0 {
        Seq::<char>::empty()
    } else {
        entries(names.drop_last()) + "  \""@ + names.last() + "\",\n"@
    }
}

/// The block sling owns, naming every workspace.
pub open spec fn block(names: Seq<Seq<char>>) -> Seq<char> {
    BEGIN@ + "\npersistent-workspaces = [\n"@ + entries(names) + "]\n"@ + END@
}

/// Whether a line opens a TOML table.
pub open spec fn opens_table() -> spec_fn(Seq<char>) -> bool {
    |l: Seq<char>| starts_with(trim_start(l), "["@)
}

/// Whether a managed block is there to rewrite: a `BEGIN` and, after it, an
/// `END`.
pub open spec fn has_block(e: Seq<char>) -> bool {
    match (find(e, BEGIN@), find(e, END@)) {
        (Some(from), Some(to)) => to > from,
        _ => false,
    }
}

/// The config with the managed block rewritten, or, when there is none yet,
/// added above the first table header — or at the end when there is no
/// table at all.
pub open spec fn with_workspaces_text(existing: Seq<char>, names: Seq<Seq<char>>) -> Seq<char> {
    let e = without_unmanaged_text(existing);
    let b = block(names);
    let rest = match first_index(lines(e), opens_table()) {
        Some(k) => e.take(line_start(lines(e), k)) + b + "\n\n"@ + e.skip(line_start(lines(e), k)),
        None => trim_end(e) + "\n\n"@ + b + "\n"@,
    };
    match (find(e, BEGIN@), find(e, END@)) {
        (Some(from), Some(to)) => if to > from {
            e.take(from) + b + e.skip(to + END@.len())
        } else {
            rest
        },
        _ => rest,
    }
}

fn seq_names(names: &[String]) -> (r: Vec<char>)
    ensures
        r@ == entries(crate::text::views(names@)),
{
    let mut out: Vec<char> = Vec::new();
    let mut i: usize = 0;
    while i < names.len()
        invariant
            i <= names@.len(),
            out@ == entries(crate::text::views(names@).take(i as int)),
        decreases names.len() - i,
    {
        let ghost vs = crate::text::views(names@);
        proof {
            assert(vs.take(i + 1).drop_last() =~= vs.take(i as int));
            assert(vs.take(i + 1).last() == names@[i as int]@);
        }
        append_chars(&mut out, chars_of("  \"").as_slice());
        append_chars(&mut out, chars_of(names[i].as_str()).as_slice());
        append_chars(&mut out, chars_of("\",\n").as_slice());
        proof {
            assert(out@ =~= entries(vs.take(i as int)) + "  \""@ + names@[i as int]@ + "\",\n"@);
        }
        i += 1;
    }
    assert(crate::text::views(names@).take(names@.len() as int) =~= crate::text::views(names@));
    out
}

/// Rewrite the managed block, or append one if it is not there yet.
/// Returns the new file contents, so the caller can decide whether to write.
pub fn with_workspaces(existing: &str, names: &[String]) -> (r: String)
    ensures
        r@ == with_workspaces_text(existing@, crate::text::views(names@)),
{
    let e = without_unmanaged(chars_of(existing).as_slice());
    let size = e.len();
    let mut b = chars_of(BEGIN);
    append_chars(&mut b, chars_of("\npersistent-workspaces = [\n").as_slice());
    append_chars(&mut b, seq_names(names).as_slice());
    append_chars(&mut b, chars_of("]\n").as_slice());
    append_chars(&mut b, chars_of(END).as_slice());
    proof {
        assert(b@ =~= block(crate::text::views(names@)));
    }
    let begin = chars_of(BEGIN);
    let end = chars_of(END);
    match (find_chars(e.as_slice(), begin.as_slice()), find_chars(e.as_slice(), end.as_slice())) {
        (Some(from), Some(to)) => {
            if to > from {
                proof {
                    lemma_find_from(e@, BEGIN@, 0);
                    lemma_find_from(e@, END@, 0);
                    assert(occurs_at(e@, BEGIN@, from as int));
                    assert(occurs_at(e@, END@, to as int));
                }
                let mut out = slice_of(e.as_slice(), 0, from);
                append_chars(&mut out, b.as_slice());
                append_chars(&mut out, slice_of(e.as_slice(), to + end.len(), size).as_slice());
                proof {
                    assert(e@.subrange(0, from as int) =~= e@.take(from as int));
                    assert(e@.subrange(to + END@.len(), e@.len() as int) =~= e@.skip(to + END@.len()));
                }
                return string_of(out.as_slice());
            }
        },
        _ => {},
    }
    // No block yet. It has to go above the first table header: appended to
    // the end it lands inside whatever section is last, and
    // `persistent-workspaces` inside `[mode.service.binding]` parses as a
    // keybinding whose modifiers make no sense.
    assert(!has_block(e@));
    let ls = lines_exec(e.as_slice());
    let ghost lv = lines(e@);
    let open = chars_of("[");
    let mut start: usize = 0;
    let mut i: usize = 0;
    while i < ls.len()
        invariant
            i <= ls@.len(),
            ls@.len() == lv.len(),
            lv == lines(e@),
            size == e@.len(),
            !has_block(e@),
            e@ == without_unmanaged_text(existing@),
            b@ == block(crate::text::views(names@)),
            open@ == "["@,
            forall|k: int| 0 <= k < ls@.len() ==> #[trigger] ls@[k]@ == lv[k],
            i < ls@.len() ==> start as int == line_start(lv, i as int),
            forall|j: int| 0 <= j < i ==> !opens_table()(#[trigger] lv[j]),
        decreases ls.len() - i,
    {
        proof {
            lemma_line_in_text(e@, i as int);
        }
        let lead = trim_start_chars(ls[i].as_slice());
        if starts_with_chars(lead.as_slice(), open.as_slice()) {
            proof {
                lemma_first_index_is(lv, opens_table(), i as int);
            }
            let mut out = slice_of(e.as_slice(), 0, start);
            append_chars(&mut out, b.as_slice());
            append_chars(&mut out, chars_of("\n\n").as_slice());
            append_chars(&mut out, slice_of(e.as_slice(), start, size).as_slice());
            proof {
                assert(e@.subrange(0, start as int) =~= e@.take(start as int));
                assert(e@.subrange(start as int, e@.len() as int) =~= e@.skip(start as int));
                reveal_strlit("\n\n");
                assert(out@ =~= e@.take(start as int) + b@ + "\n\n"@ + e@.skip(start as int));
            }
            return string_of(out.as_slice());
        }
        if i + 1 < ls.len() {
            proof {
                lemma_line_in_text(e@, i + 1);
                assert(line_start(lv, i + 1) == line_start(lv, i as int) + lv[i as int].len() + 1);
            }
            start = start + ls[i].len() + 1;
        }
        i += 1;
    }
    proof {
        lemma_first_index(lv, opens_table());
    }
    let mut out = trim_end_chars(e.as_slice());
    append_chars(&mut out, chars_of("\n\n").as_slice());
    append_chars(&mut out, b.as_slice());
    out.push('\n');
    proof {
        reveal_strlit("\n");
    }
    string_of(out.as_slice())
}

// ---------------------------------------------------------------------------
// Syncing again
// ---------------------------------------------------------------------------

/// The lines the walk keeps, in order.
pub open spec fn kept_lines(ls: Seq<Seq<char>>, k: int, span: Option<(int, int)>) -> Seq<Seq<char>>
    decreases k,
{
    if k <= 0 {
        Seq::<Seq<char>>::empty()
    } else {
        let prev = kept_lines(ls, k - 1, span);
        if pass_lines(ls, k - 1, span).1 || (!inside(span, line_start(ls, k - 1)) && key_line(
            ls[k - 1],
        )) {
            prev
        } else {
            prev.push(ls[k - 1])
        }
    }
}

/// A line that holds neither marker.
pub open spec fn unmarked(l: Seq<char>) -> bool {
    find(l, BEGIN@) is None && find(l, END@) is None
}

/// A line that a rewrite keeps and finds nothing in: a plain line with no
/// marker on it that starts no `persistent-workspaces` key.
pub open spec fn clean_line(l: Seq<char>) -> bool {
    plain_line(l) && unmarked(l) && !key_line(l)
}

proof fn lemma_kept(ls: Seq<Seq<char>>, k: int, span: Option<(int, int)>)
    requires
        0 <= k <= ls.len(),
    ensures
        pass_lines(ls, k, span).0 == joined(kept_lines(ls, k, span)),
    decreases k,
{
    if k > 0 {
        lemma_kept(ls, k - 1, span);
        let prev = kept_lines(ls, k - 1, span);
        if !(pass_lines(ls, k - 1, span).1 || (!inside(span, line_start(ls, k - 1)) && key_line(
            ls[k - 1],
        ))) {
            reveal_strlit("\n");
            assert(prev.push(ls[k - 1]).drop_last() =~= prev);
            assert(joined(prev.push(ls[k - 1])) =~= joined(prev) + ls[k - 1] + "\n"@);
        }
    }
}

/// With no managed block, every line the walk keeps starts no key, and each
/// is one of the lines it walked.
proof fn lemma_kept_clean(ls: Seq<Seq<char>>, k: int)
    requires
        0 <= k <= ls.len(),
        forall|j: int| 0 <= j < ls.len() ==> plain_line(#[trigger] ls[j]) && unmarked(ls[j]),
    ensures
        forall|i: int|
            0 <= i < kept_lines(ls, k, None).len() ==> clean_line(
                #[trigger] kept_lines(ls, k, None)[i],
            ),
    decreases k,
{
    if k > 0 {
        lemma_kept_clean(ls, k - 1);
        let prev = kept_lines(ls, k - 1, None);
        assert(plain_line(ls[k - 1]) && unmarked(ls[k - 1]));
        assert forall|i: int|
            0 <= i < kept_lines(ls, k, None).len() implies clean_line(
                #[trigger] kept_lines(ls, k, None)[i],
            ) by {
            if i < prev.len() {
                assert(kept_lines(ls, k, None)[i] == prev[i]);
            }
        }
    }
}

/// When no line the walk meets outside the block starts a key, it keeps
/// everything.
proof fn lemma_keeps_all(ls: Seq<Seq<char>>, k: int, span: Option<(int, int)>)
    requires
        0 <= k <= ls.len(),
        forall|j: int|
            0 <= j < ls.len() ==> inside(span, line_start(ls, j)) || !key_line(#[trigger] ls[j]),
    ensures
        pass_lines(ls, k, span) == (joined(ls.take(k)), false),
    decreases k,
{
    if k > 0 {
        lemma_keeps_all(ls, k - 1, span);
        assert(ls.take(k).drop_last() =~= ls.take(k - 1));
        assert(ls.take(k).last() == ls[k - 1]);
        assert(inside(span, line_start(ls, k - 1)) || !key_line(ls[k - 1]));
        reveal_strlit("\n");
        assert(joined(ls.take(k)) =~= joined(ls.take(k - 1)) + ls[k - 1] + "\n"@);
        assert(pass_lines(ls, k, span).0 =~= joined(ls.take(k)));
    }
}

/// The line of the block that names one workspace.
pub open spec fn entry_line(name: Seq<char>) -> Seq<char> {
    "  \""@ + name + "\","@
}

/// The block, line by line.
pub open spec fn block_lines(names: Seq<Seq<char>>) -> Seq<Seq<char>> {
    seq![BEGIN@, "persistent-workspaces = ["@] + names.map_values(|x: Seq<char>| entry_line(x))
        + seq!["]"@, END@]
}

proof fn lemma_entries_joined(names: Seq<Seq<char>>)
    ensures
        entries(names) == joined(names.map_values(|x: Seq<char>| entry_line(x))),
    decreases names.len(),
{
    if names.len() > 0 {
        let f = |x: Seq<char>| entry_line(x);
        lemma_entries_joined(names.drop_last());
        assert(names.map_values(f).drop_last() =~= names.drop_last().map_values(f));
        assert(names.map_values(f).last() == entry_line(names.last()));
        reveal_strlit("  \"");
        reveal_strlit("\",");
        reveal_strlit("\",\n");
        assert(entries(names) =~= joined(names.map_values(f)));
    }
}

/// The block's lines, joined, are the block and a newline.
proof fn lemma_block_joined(names: Seq<Seq<char>>)
    ensures
        joined(block_lines(names)) == block(names) + seq!['\n'],
{
    let f = |x: Seq<char>| entry_line(x);
    let head = seq![BEGIN@, "persistent-workspaces = ["@];
    let tail = seq!["]"@, END@];
    let mid = names.map_values(f);
    lemma_joined_append(head + mid, tail);
    lemma_joined_append(head, mid);
    lemma_entries_joined(names);
    assert(head.drop_last() =~= seq![BEGIN@]);
    lemma_joined_one(BEGIN@);
    assert(tail.drop_last() =~= seq!["]"@]);
    lemma_joined_one("]"@);
    reveal_strlit("\npersistent-workspaces = [\n");
    reveal_strlit("persistent-workspaces = [");
    reveal_strlit("]\n");
    reveal_strlit("]");
    assert(joined(head) =~= BEGIN@ + "\npersistent-workspaces = [\n"@);
    assert(joined(tail) =~= "]\n"@ + END@ + seq!['\n']);
    assert(joined(block_lines(names)) =~= block(names) + seq!['\n']);
}

proof fn lemma_empty_clean()
    ensures
        clean_line(Seq::<char>::empty()),
{
    let e = Seq::<char>::empty();
    reveal_strlit("# slingr:begin — managed by `slingr sync`, edits here are overwritten");
    reveal_strlit("# slingr:end");
    reveal_strlit("persistent-workspaces");
    lemma_find_none(e, BEGIN@, 0);
    lemma_find_none(e, END@, 0);
    assert(!e.contains('\n'));
    crate::text::lemma_lead_bounded(e, crate::text::ws());
}

proof fn lemma_prefix_absent(l: Seq<char>, p: Seq<char>, m: int)
    requires
        0 <= m <= l.len(),
        find(l, p) is None,
    ensures
        find(l.take(m), p) is None,
{
    lemma_find_from(l, p, 0);
    assert forall|x: int| 0 <= x implies !#[trigger] occurs_at(l.take(m), p, x) by {
        if occurs_at(l.take(m), p, x) {
            assert(l.subrange(x, x + p.len()) =~= l.take(m).subrange(x, x + p.len()));
            assert(occurs_at(l, p, x));
        }
    }
    lemma_find_none(l.take(m), p, 0);
}

/// The last line with text on it, trimmed at its end, is still clean.
proof fn lemma_trim_end_clean(l: Seq<char>)
    requires
        clean_line(l),
        trim_end(l).len() > 0,
    ensures
        clean_line(trim_end(l)),
{
    let w = crate::text::ws();
    let m = l.len() - crate::text::trail(l, w);
    let p = trim_end(l);
    crate::text::lemma_trail_bounded(l, w);
    assert(p == l.take(m));
    assert(!w(l[m - 1]));
    // Plain: a part of a plain line, ending in something that is not space.
    if p.contains('\n') {
        let i = choose|i: int| 0 <= i < p.len() && p[i] == '\n';
        assert(l[i] == '\n');
        assert(l.contains('\n'));
    }
    assert(p.last() == l[m - 1]);
    assert(('\r' as u32) == 13);
    // No marker in a part of a line with none.
    lemma_prefix_absent(l, BEGIN@, m);
    lemma_prefix_absent(l, END@, m);
    // It starts where the line starts, so it starts no key the line does not.
    crate::text::lemma_lead_bounded(l, w);
    let d = crate::text::lead(l, w) as int;
    assert(d < m) by {
        if d >= m {
            assert(w(l[m - 1]));
        }
    }
    assert forall|k: int| 0 <= k < d implies w(#[trigger] p[k]) by {
        assert(p[k] == l[k]);
    }
    assert(p[d] == l[d]);
    crate::text::lemma_lead_is(p, w, d);
    let key = "persistent-workspaces"@;
    if key_line(p) {
        assert(trim_start(p) == p.skip(d));
        assert(trim_start(l) == l.skip(d));
        assert(trim_start(l).take(key.len() as int) =~= trim_start(p).take(key.len() as int));
        assert(key_line(l));
    }
}

/// A config sling has not written to yet: neither marker anywhere in it, and
/// no line ending in a carriage return.
pub open spec fn fresh_config(text: Seq<char>) -> bool {
    &&& find(text, BEGIN@) is None
    &&& find(text, END@) is None
    &&& forall|k: int|
        0 <= k < lines(text).len() ==> !(#[trigger] lines(text)[k].len() > 0 && lines(text)[k].last()
            == '\r')
}

/// The lines of a config that the first rewrite keeps.
pub open spec fn kept_of(text: Seq<char>) -> Seq<Seq<char>> {
    kept_lines(lines(text), lines(text).len() as int, None)
}

/// What stands before the block in a config that had none, line by line.
pub open spec fn lines_before(text: Seq<char>) -> Seq<Seq<char>> {
    let k = kept_of(text);
    match first_index(k, opens_table()) {
        Some(i) => k.take(i),
        None => match last_solid(k) {
            None => seq![Seq::<char>::empty(), Seq::<char>::empty()],
            Some(j) => k.take(j) + seq![trim_end(k[j]), Seq::<char>::empty()],
        },
    }
}

/// What stands after it.
pub open spec fn lines_after(text: Seq<char>) -> Seq<Seq<char>> {
    let k = kept_of(text);
    match first_index(k, opens_table()) {
        Some(i) => seq![Seq::<char>::empty()] + k.skip(i),
        None => Seq::<Seq<char>>::empty(),
    }
}

/// What the walk leaves of a config without a block: its kept lines, each
/// clean, and no block to rewrite.
proof fn lemma_first_pass(text: Seq<char>)
    requires
        fresh_config(text),
    ensures
        without_unmanaged_text(text) == joined(kept_of(text)),
        lines(without_unmanaged_text(text)) == kept_of(text),
        find(without_unmanaged_text(text), BEGIN@) is None,
        forall|i: int| 0 <= i < kept_of(text).len() ==> clean_line(#[trigger] kept_of(text)[i]),
{
    reveal_strlit("# slingr:begin — managed by `slingr sync`, edits here are overwritten");
    reveal_strlit("# slingr:end");
    let ls = lines(text);
    let n = ls.len() as int;
    assert forall|j: int| 0 <= j < ls.len() implies plain_line(#[trigger] ls[j]) && unmarked(ls[j]) by {
        crate::lined::lemma_lines_free(text, j);
        crate::lined::lemma_absent_lines(text, BEGIN@, j);
        crate::lined::lemma_absent_lines(text, END@, j);
    }
    assert(managed_span(text) is None);
    lemma_kept(ls, n, None);
    lemma_kept_clean(ls, n);
    let k = kept_of(text);
    assert forall|i: int| 0 <= i < k.len() implies plain_line(#[trigger] k[i]) by {
        assert(clean_line(k[i]));
    }
    crate::lined::lemma_lines_joined(k);
    assert(!BEGIN@.contains('\n'));
    assert forall|i: int| 0 <= i < k.len() implies (#[trigger] find(k[i], BEGIN@)) is None by {
        assert(clean_line(k[i]));
    }
    crate::lined::lemma_absent_joined(k, BEGIN@);
}

/// The block goes in above the first table header.
proof fn lemma_first_sync_above(k: Seq<Seq<char>>, i: int, names: Seq<Seq<char>>)
    requires
        0 <= i < k.len(),
        lines(joined(k)) == k,
        forall|x: int| 0 <= x < k.len() ==> clean_line(#[trigger] k[x]),
    ensures
        joined(k.take(i) + block_lines(names) + (seq![Seq::<char>::empty()] + k.skip(i))) == joined(
            k,
        ).take(line_start(lines(joined(k)), i)) + block(names) + "\n\n"@ + joined(k).skip(
            line_start(lines(joined(k)), i),
        ),
        forall|x: int| 0 <= x < k.take(i).len() ==> clean_line(#[trigger] k.take(i)[x]),
        forall|x: int|
            0 <= x < (seq![Seq::<char>::empty()] + k.skip(i)).len() ==> clean_line(
                #[trigger] (seq![Seq::<char>::empty()] + k.skip(i))[x],
            ),
{
    let e = joined(k);
    let b = block(names);
    let bl = block_lines(names);
    let empty = Seq::<char>::empty();
    lemma_block_joined(names);
    lemma_empty_clean();
    lemma_joined_one(empty);
    reveal_strlit("\n\n");
    let front = k.take(i);
    let back = k.skip(i);
    assert(k =~= front + back);
    lemma_joined_append(front, back);
    crate::lined::lemma_line_start_joined(k, i);
    let s = line_start(k, i);
    assert(e.take(s) =~= joined(front));
    assert(e.skip(s) =~= joined(back));
    lemma_joined_append(seq![empty], back);
    lemma_joined_append(front, bl);
    lemma_joined_append(front + bl, seq![empty] + back);
    assert(joined(front + bl + (seq![empty] + back)) =~= e.take(s) + b + "\n\n"@ + e.skip(s));
    assert forall|x: int| 0 <= x < (seq![empty] + back).len() implies clean_line(
        #[trigger] (seq![empty] + back)[x],
    ) by {
        if x > 0 {
            assert((seq![empty] + back)[x] == k[i + x - 1]);
        }
    }
    assert forall|x: int| 0 <= x < front.len() implies clean_line(#[trigger] front[x]) by {
        assert(front[x] == k[x]);
    }
}

/// With no table header, the block goes at the end, after one blank line.
proof fn lemma_first_sync_end(k: Seq<Seq<char>>, names: Seq<Seq<char>>, before: Seq<Seq<char>>)
    requires
        forall|x: int| 0 <= x < k.len() ==> clean_line(#[trigger] k[x]),
        before == match last_solid(k) {
            None => seq![Seq::<char>::empty(), Seq::<char>::empty()],
            Some(j) => k.take(j) + seq![trim_end(k[j]), Seq::<char>::empty()],
        },
    ensures
        joined(before + block_lines(names)) == trim_end(joined(k)) + "\n\n"@ + block(names) + "\n"@,
        forall|x: int| 0 <= x < before.len() ==> clean_line(#[trigger] before[x]),
{
    let b = block(names);
    let bl = block_lines(names);
    let empty = Seq::<char>::empty();
    lemma_block_joined(names);
    lemma_empty_clean();
    lemma_joined_one(empty);
    reveal_strlit("\n\n");
    reveal_strlit("\n");
    crate::lined::lemma_trim_end_joined(k);
    lemma_joined_append(before, bl);
    match last_solid(k) {
        None => {
            let two = seq![empty, empty];
            assert(two.drop_last() =~= seq![empty]);
            assert(joined(two) =~= "\n\n"@);
            assert(joined(two + bl) =~= trim_end(joined(k)) + "\n\n"@ + b + "\n"@);
        },
        Some(j) => {
            let last = trim_end(k[j]);
            let tail = seq![last, empty];
            assert(tail.drop_last() =~= seq![last]);
            lemma_joined_one(last);
            assert(joined(tail) =~= last + "\n\n"@);
            lemma_joined_append(k.take(j), tail);
            assert(joined(k.take(j) + tail + bl) =~= trim_end(joined(k)) + "\n\n"@ + b + "\n"@);
            assert(clean_line(k[j]));
            lemma_trim_end_clean(k[j]);
            assert forall|x: int| 0 <= x < before.len() implies clean_line(#[trigger] before[x]) by {
                if x < j {
                    assert(before[x] == k[x]);
                }
            }
        },
    }
}

/// The first rewrite of a config without a block: its kept lines, the block,
/// the rest of its kept lines — with nothing around the block that a later
/// rewrite would find.
proof fn lemma_first_sync(text: Seq<char>, names: Seq<Seq<char>>)
    requires
        fresh_config(text),
    ensures
        with_workspaces_text(text, names) == joined(
            lines_before(text) + block_lines(names) + lines_after(text),
        ),
        forall|i: int|
            0 <= i < lines_before(text).len() ==> clean_line(#[trigger] lines_before(text)[i]),
        forall|i: int|
            0 <= i < lines_after(text).len() ==> clean_line(#[trigger] lines_after(text)[i]),
{
    lemma_first_pass(text);
    let k = kept_of(text);
    lemma_first_index(k, opens_table());
    match first_index(k, opens_table()) {
        Some(i) => {
            lemma_first_sync_above(k, i, names);
        },
        None => {
            lemma_first_sync_end(k, names, lines_before(text));
            assert(lines_before(text) + block_lines(names) + lines_after(text) =~= lines_before(text)
                + block_lines(names));
        },
    }
}

/// A workspace name the block can hold on one line without holding a
/// marker: no newline in it, and no `#`, which both markers start with.
pub open spec fn plain_name(name: Seq<char>) -> bool {
    !has_char(name, '\n') && !has_char(name, '#')
}

/// A line without a `#` holds no `END`.
proof fn lemma_no_end(l: Seq<char>)
    requires
        !l.contains('#'),
    ensures
        find(l, END@) is None,
{
    reveal_strlit("# slingr:end");
    assert forall|x: int| 0 <= x implies !#[trigger] occurs_at(l, END@, x) by {
        if occurs_at(l, END@, x) {
            assert(l.subrange(x, x + END@.len())[0] == END@[0]);
            assert(l[x] == '#');
        }
    }
    lemma_find_none(l, END@, 0);
}

/// What a second rewrite needs of the block's lines.
proof fn lemma_block_lines(names: Seq<Seq<char>>)
    requires
        forall|i: int| 0 <= i < names.len() ==> plain_name(#[trigger] names[i]),
    ensures
        block_lines(names).len() == names.len() + 4,
        forall|i: int|
            0 <= i < block_lines(names).len() ==> plain_line(#[trigger] block_lines(names)[i]),
        forall|i: int|
            0 <= i < block_lines(names).len() - 1 ==> (#[trigger] find(block_lines(names)[i], END@))
                is None,
        block_lines(names)[0] == BEGIN@,
        block_lines(names).last() == END@,
{
    reveal_strlit("# slingr:begin — managed by `slingr sync`, edits here are overwritten");
    reveal_strlit("# slingr:end");
    reveal_strlit("persistent-workspaces = [");
    reveal_strlit("]");
    reveal_strlit("  \"");
    reveal_strlit("\",");
    let bl = block_lines(names);
    let f = |x: Seq<char>| entry_line(x);
    assert forall|i: int| 0 <= i < bl.len() implies plain_line(#[trigger] bl[i]) && (i < bl.len()
        - 1 ==> find(bl[i], END@) is None) by {
        if i == 0 {
            assert(bl[i] == BEGIN@);
            assert(!BEGIN@.contains('\n'));
            // `BEGIN` starts like `END` but parts from it at its tenth character.
            assert forall|x: int| 0 <= x implies !#[trigger] occurs_at(BEGIN@, END@, x) by {
                if occurs_at(BEGIN@, END@, x) {
                    let w = BEGIN@.subrange(x, x + END@.len());
                    if x == 0 {
                        assert(w[9] == BEGIN@[9]);
                        assert(w[9] == END@[9]);
                    } else {
                        assert(w[0] == BEGIN@[x]);
                        assert(w[0] == '#');
                    }
                }
            }
            lemma_find_none(BEGIN@, END@, 0);
        } else if i == 1 {
            assert(bl[i] == "persistent-workspaces = ["@);
            lemma_no_end(bl[i]);
        } else if i < bl.len() - 2 {
            let n = names[i - 2];
            assert(bl[i] == entry_line(n));
            let l = entry_line(n);
            assert(plain_name(n));
            assert forall|c: char| c == '\n' || c == '#' implies !l.contains(c) by {
                if l.contains(c) {
                    let x = choose|x: int| 0 <= x < l.len() && l[x] == c;
                    if 3 <= x < 3 + n.len() {
                        assert(n[x - 3] == c);
                        assert(n.contains(c));
                    }
                }
            }
            lemma_no_end(l);
        } else if i == bl.len() - 2 {
            assert(bl[i] == "]"@);
            lemma_no_end(bl[i]);
        } else {
            assert(bl[i] == END@);
        }
    }
}

/// Only the block between the markers is touched: rewriting a config that
/// holds sling's block, with lines around it that hold no marker, start no
/// `persistent-workspaces` key and end in no carriage return, replaces the
/// block and leaves every other line exactly as it was.
#[verifier::spinoff_prover]
#[verifier::rlimit(40)]
pub proof fn lemma_resync(
    x: Seq<Seq<char>>,
    y: Seq<Seq<char>>,
    old_names: Seq<Seq<char>>,
    names: Seq<Seq<char>>,
)
    requires
        forall|i: int| 0 <= i < x.len() ==> clean_line(#[trigger] x[i]),
        forall|i: int| 0 <= i < y.len() ==> clean_line(#[trigger] y[i]),
        forall|i: int| 0 <= i < old_names.len() ==> plain_name(#[trigger] old_names[i]),
    ensures
        with_workspaces_text(joined(x + block_lines(old_names) + y), names) == joined(
            x + block_lines(names) + y,
        ),
        without_unmanaged_text(joined(x + block_lines(old_names) + y)) == joined(
            x + block_lines(old_names) + y,
        ),
{
    reveal_strlit("# slingr:begin — managed by `slingr sync`, edits here are overwritten");
    reveal_strlit("# slingr:end");
    let bl = block_lines(old_names);
    let ls = x + bl + y;
    let s = joined(ls);
    let jx = joined(x);
    let jy = joined(y);
    let b = block(old_names);
    lemma_block_lines(old_names);
    lemma_block_joined(old_names);
    lemma_block_joined(names);
    // The text is its lines.
    assert forall|i: int| 0 <= i < ls.len() implies plain_line(#[trigger] ls[i]) by {
        if i < x.len() {
            assert(ls[i] == x[i]);
        } else if i < x.len() + bl.len() {
            assert(ls[i] == bl[i - x.len()]);
        } else {
            assert(ls[i] == y[i - x.len() - bl.len()]);
        }
    }
    crate::lined::lemma_lines_joined(ls);
    lemma_joined_append(x, bl);
    lemma_joined_append(x + bl, y);
    assert(s == jx + (b + seq!['\n']) + jy);
    // `BEGIN` is first found where the block starts.
    assert(!BEGIN@.contains('\n'));
    assert forall|k: int| 0 <= k < x.len() implies (#[trigger] find(ls[k], BEGIN@)) is None by {
        assert(ls[k] == x[k]);
        assert(clean_line(x[k]));
    }
    assert(ls[x.len() as int] == BEGIN@);
    assert(ls.take(x.len() as int) =~= x);
    assert(BEGIN@.take(BEGIN@.len() as int) =~= BEGIN@);
    crate::lined::lemma_found_joined(ls, BEGIN@, x.len() as int);
    assert(find(s, BEGIN@) == Some(jx.len() as int));
    // `END` is first found on the block's last line.
    let m = x.len() + bl.len() - 1;
    assert(!END@.contains('\n'));
    assert forall|k: int| 0 <= k < m implies (#[trigger] find(ls[k], END@)) is None by {
        if k < x.len() {
            assert(ls[k] == x[k]);
            assert(clean_line(x[k]));
        } else {
            assert(ls[k] == bl[k - x.len()]);
        }
    }
    assert(ls[m] == END@);
    assert(ls.take(m) =~= x + bl.drop_last());
    lemma_joined_append(x, bl.drop_last());
    assert(joined(bl) == joined(bl.drop_last()) + END@ + seq!['\n']);
    assert(END@.take(END@.len() as int) =~= END@);
    crate::lined::lemma_found_joined(ls, END@, m);
    let to = jx.len() + b.len() - END@.len();
    assert(find(s, END@) == Some(to));
    assert(managed_span(s) == Some((jx.len() as int, (jx.len() + b.len()) as int)));
    // The walk keeps every line: only the block's own key line starts a key,
    // and it is inside the block.
    assert forall|j: int| 0 <= j < ls.len() implies inside(
        managed_span(s),
        line_start(ls, j),
    ) || !key_line(#[trigger] ls[j]) by {
        if j < x.len() {
            assert(ls[j] == x[j]);
            assert(clean_line(x[j]));
        } else if j < x.len() + bl.len() {
            let i = j - x.len();
            crate::lined::lemma_line_start_joined(ls, j);
            assert(ls.take(j) =~= x + bl.take(i));
            lemma_joined_append(x, bl.take(i));
            assert(bl.drop_last() =~= bl.take(i) + bl.drop_last().skip(i));
            lemma_joined_append(bl.take(i), bl.drop_last().skip(i));
            assert(line_start(ls, j) == jx.len() + joined(bl.take(i)).len());
        } else {
            assert(ls[j] == y[j - x.len() - bl.len()]);
            assert(clean_line(y[j - x.len() - bl.len()]));
        }
    }
    lemma_keeps_all(ls, ls.len() as int, managed_span(s));
    assert(ls.take(ls.len() as int) =~= ls);
    assert(without_unmanaged_text(s) == s);
    // So the block between the markers is what gets replaced.
    assert(s.take(jx.len() as int) =~= jx);
    assert(s.skip((jx.len() + b.len()) as int) =~= seq!['\n'] + jy);
    lemma_joined_append(x, block_lines(names));
    lemma_joined_append(x + block_lines(names), y);
    assert(with_workspaces_text(s, names) =~= joined(x + block_lines(names) + y));
}

proof fn lemma_line_start_grows(ls: Seq<Seq<char>>, k: int, m: int)
    requires
        0 <= k <= m,
    ensures
        line_start(ls, k) <= line_start(ls, m),
    decreases m - k,
{
    if k < m {
        lemma_line_start_grows(ls, k, m - 1);
    }
}

/// Where sling's block sits in a config that holds it between lines with no
/// marker on them: the lines before it lie wholly before the block, the
/// block's own lines inside it, and the lines after it past its end.
#[verifier::spinoff_prover]
#[verifier::rlimit(40)]
proof fn lemma_block_span(x: Seq<Seq<char>>, y: Seq<Seq<char>>, old_names: Seq<Seq<char>>)
    requires
        forall|i: int| 0 <= i < x.len() ==> plain_line(#[trigger] x[i]) && unmarked(x[i]),
        forall|i: int| 0 <= i < y.len() ==> plain_line(#[trigger] y[i]) && unmarked(y[i]),
        forall|i: int| 0 <= i < old_names.len() ==> plain_name(#[trigger] old_names[i]),
    ensures
        ({
            let bl = block_lines(old_names);
            let ls = x + bl + y;
            let span = managed_span(joined(ls));
            &&& lines(joined(ls)) == ls
            &&& forall|j: int|
                0 <= j < x.len() ==> !inside(span, #[trigger] line_start(ls, j))
            &&& forall|j: int|
                x.len() <= j < x.len() + bl.len() ==> inside(span, #[trigger] line_start(ls, j))
            &&& forall|j: int|
                x.len() + bl.len() <= j < ls.len() ==> !inside(span, #[trigger] line_start(ls, j))
        }),
{
    reveal_strlit("# slingr:begin — managed by `slingr sync`, edits here are overwritten");
    reveal_strlit("# slingr:end");
    let bl = block_lines(old_names);
    let ls = x + bl + y;
    let s = joined(ls);
    let jx = joined(x);
    let jy = joined(y);
    let b = block(old_names);
    lemma_block_lines(old_names);
    lemma_block_joined(old_names);
    assert forall|i: int| 0 <= i < ls.len() implies plain_line(#[trigger] ls[i]) by {
        if i < x.len() {
            assert(ls[i] == x[i]);
        } else if i < x.len() + bl.len() {
            assert(ls[i] == bl[i - x.len()]);
        } else {
            assert(ls[i] == y[i - x.len() - bl.len()]);
        }
    }
    crate::lined::lemma_lines_joined(ls);
    lemma_joined_append(x, bl);
    lemma_joined_append(x + bl, y);
    assert(s == jx + (b + seq!['\n']) + jy);
    assert(!BEGIN@.contains('\n'));
    assert forall|k: int| 0 <= k < x.len() implies (#[trigger] find(ls[k], BEGIN@)) is None by {
        assert(ls[k] == x[k]);
    }
    assert(ls[x.len() as int] == BEGIN@);
    assert(ls.take(x.len() as int) =~= x);
    assert(BEGIN@.take(BEGIN@.len() as int) =~= BEGIN@);
    crate::lined::lemma_found_joined(ls, BEGIN@, x.len() as int);
    assert(find(s, BEGIN@) == Some(jx.len() as int));
    let m = x.len() + bl.len() - 1;
    assert(!END@.contains('\n'));
    assert forall|k: int| 0 <= k < m implies (#[trigger] find(ls[k], END@)) is None by {
        if k < x.len() {
            assert(ls[k] == x[k]);
        } else {
            assert(ls[k] == bl[k - x.len()]);
        }
    }
    assert(ls[m] == END@);
    assert(ls.take(m) =~= x + bl.drop_last());
    lemma_joined_append(x, bl.drop_last());
    assert(joined(bl) == joined(bl.drop_last()) + END@ + seq!['\n']);
    assert(END@.take(END@.len() as int) =~= END@);
    crate::lined::lemma_found_joined(ls, END@, m);
    let span = managed_span(s);
    assert(span == Some((jx.len() as int, (jx.len() + b.len()) as int)));
    crate::lined::lemma_line_start_joined(ls, x.len() as int);
    assert(line_start(ls, x.len() as int) == jx.len());
    assert forall|j: int| 0 <= j < x.len() implies !inside(span, #[trigger] line_start(ls, j)) by {
        lemma_line_start_grows(ls, j + 1, x.len() as int);
    }
    assert forall|j: int|
        x.len() <= j < x.len() + bl.len() implies inside(span, #[trigger] line_start(ls, j)) by {
        let i = j - x.len();
        crate::lined::lemma_line_start_joined(ls, j);
        assert(ls.take(j) =~= x + bl.take(i));
        lemma_joined_append(x, bl.take(i));
        assert(bl.drop_last() =~= bl.take(i) + bl.drop_last().skip(i));
        lemma_joined_append(bl.take(i), bl.drop_last().skip(i));
        assert(line_start(ls, j) == jx.len() + joined(bl.take(i)).len());
    }
    let p: int = x.len() + bl.len() as int;
    crate::lined::lemma_line_start_joined(ls, p);
    assert(ls.take(p) =~= x + bl);
    assert forall|j: int| p <= j < ls.len() implies !inside(span, #[trigger] line_start(ls, j)) by {
        lemma_line_start_grows(ls, p, j);
    }
}

/// The walk over lines `off..off + m` of `ls`, none of them inside the block,
/// goes as the walk over the same lines on their own would.
proof fn lemma_walk_shift(
    ls: Seq<Seq<char>>,
    q: Seq<Seq<char>>,
    off: int,
    m: int,
    span: Option<(int, int)>,
)
    requires
        0 <= off,
        0 <= m <= q.len(),
        off + m <= ls.len(),
        forall|j: int| 0 <= j < m ==> ls[off + j] == #[trigger] q[j],
        forall|j: int| 0 <= j < m ==> !inside(span, #[trigger] line_start(ls, off + j)),
        !pass_lines(ls, off, span).1,
    ensures
        pass_lines(ls, off + m, span).1 == pass_lines(q, m, None).1,
        kept_lines(ls, off + m, span) == kept_lines(ls, off, span) + kept_lines(q, m, None),
    decreases m,
{
    if m == 0 {
        assert(kept_lines(ls, off, span) + kept_lines(q, 0, None) =~= kept_lines(ls, off, span));
    } else {
        lemma_walk_shift(ls, q, off, m - 1, span);
        assert(ls[off + m - 1] == q[m - 1]);
        assert(!inside(span, line_start(ls, off + m - 1)));
        let prev = kept_lines(ls, off, span) + kept_lines(q, m - 1, None);
        assert(prev.push(q[m - 1]) =~= kept_lines(ls, off, span) + kept_lines(q, m - 1, None).push(
            q[m - 1],
        ));
    }
}

/// Inside the block the walk keeps every line and skips nothing.
proof fn lemma_walk_block(ls: Seq<Seq<char>>, off: int, m: int, span: Option<(int, int)>)
    requires
        0 <= off,
        0 <= m,
        off + m <= ls.len(),
        forall|j: int| off <= j < off + m ==> inside(span, #[trigger] line_start(ls, j)),
        !pass_lines(ls, off, span).1,
    ensures
        !pass_lines(ls, off + m, span).1,
        kept_lines(ls, off + m, span) == kept_lines(ls, off, span) + ls.subrange(off, off + m),
    decreases m,
{
    if m == 0 {
        assert(kept_lines(ls, off, span) + ls.subrange(off, off) =~= kept_lines(ls, off, span));
    } else {
        lemma_walk_block(ls, off, m - 1, span);
        assert(inside(span, line_start(ls, off + m - 1)));
        assert(ls.subrange(off, off + m) =~= ls.subrange(off, off + m - 1).push(ls[off + m - 1]));
    }
}

/// Every `persistent-workspaces` array among these lines is closed by the
/// time they end.
pub open spec fn arrays_closed(x: Seq<Seq<char>>) -> bool {
    !pass_lines(x, x.len() as int, None).1
}

/// The lines a rewrite keeps of these: all but the hand-written
/// `persistent-workspaces` arrays.
pub open spec fn kept_of_lines(x: Seq<Seq<char>>) -> Seq<Seq<char>> {
    kept_lines(x, x.len() as int, None)
}

/// Rewriting a config that holds sling's block, with lines around it that
/// hold no marker and end in no carriage return, absorbs every hand-written
/// `persistent-workspaces` array around the block, replaces the block, and
/// keeps every other line as it was.
#[verifier::spinoff_prover]
#[verifier::rlimit(40)]
pub proof fn lemma_resync_absorbing(
    x: Seq<Seq<char>>,
    y: Seq<Seq<char>>,
    old_names: Seq<Seq<char>>,
    names: Seq<Seq<char>>,
)
    requires
        forall|i: int| 0 <= i < x.len() ==> plain_line(#[trigger] x[i]) && unmarked(x[i]),
        forall|i: int| 0 <= i < y.len() ==> plain_line(#[trigger] y[i]) && unmarked(y[i]),
        arrays_closed(x),
        forall|i: int| 0 <= i < old_names.len() ==> plain_name(#[trigger] old_names[i]),
    ensures
        with_workspaces_text(joined(x + block_lines(old_names) + y), names) == joined(
            kept_of_lines(x) + block_lines(names) + kept_of_lines(y),
        ),
{
    let bl = block_lines(old_names);
    let ls = x + bl + y;
    let s = joined(ls);
    lemma_block_span(x, y, old_names);
    let span = managed_span(s);
    let kx = kept_of_lines(x);
    let ky = kept_of_lines(y);
    assert(!pass_lines(ls, 0, span).1);
    assert forall|j: int| 0 <= j < x.len() implies ls[0 + j] == #[trigger] x[j] by {}
    assert forall|j: int| 0 <= j < x.len() implies !inside(span, #[trigger] line_start(ls, 0 + j)) by {
        assert(!inside(span, line_start(ls, j)));
    }
    lemma_walk_shift(ls, x, 0, x.len() as int, span);
    assert(kept_lines(ls, 0, span) + kx =~= kx);
    lemma_walk_block(ls, x.len() as int, bl.len() as int, span);
    assert(ls.subrange(x.len() as int, x.len() + bl.len() as int) =~= bl);
    let p: int = x.len() + bl.len() as int;
    assert forall|j: int| 0 <= j < y.len() implies ls[p + j] == #[trigger] y[j] by {}
    assert forall|j: int| 0 <= j < y.len() implies !inside(span, #[trigger] line_start(ls, p + j)) by {
        assert(!inside(span, line_start(ls, p + j)));
    }
    lemma_walk_shift(ls, y, p, y.len() as int, span);
    assert(kept_lines(ls, ls.len() as int, span) =~= kx + bl + ky);
    lemma_kept(ls, ls.len() as int, span);
    assert(without_unmanaged_text(s) == joined(kx + bl + ky));
    lemma_kept_clean(x, x.len() as int);
    lemma_kept_clean(y, y.len() as int);
    lemma_resync(kx, ky, old_names, names);
}

/// Syncing twice is syncing once, also for a config that holds sling's
/// block and hand-written `persistent-workspaces` arrays around it: the
/// first sync absorbs them, and the second changes nothing.
pub proof fn lemma_sync_twice_absorbing(
    x: Seq<Seq<char>>,
    y: Seq<Seq<char>>,
    old_names: Seq<Seq<char>>,
    names: Seq<Seq<char>>,
)
    requires
        forall|i: int| 0 <= i < x.len() ==> plain_line(#[trigger] x[i]) && unmarked(x[i]),
        forall|i: int| 0 <= i < y.len() ==> plain_line(#[trigger] y[i]) && unmarked(y[i]),
        arrays_closed(x),
        forall|i: int| 0 <= i < old_names.len() ==> plain_name(#[trigger] old_names[i]),
        forall|i: int| 0 <= i < names.len() ==> plain_name(#[trigger] names[i]),
    ensures
        ({
            let once = with_workspaces_text(joined(x + block_lines(old_names) + y), names);
            with_workspaces_text(once, names) == once
        }),
{
    lemma_resync_absorbing(x, y, old_names, names);
    lemma_kept_clean(x, x.len() as int);
    lemma_kept_clean(y, y.len() as int);
    lemma_resync(kept_of_lines(x), kept_of_lines(y), names, names);
}

/// Syncing a config that sling has not written to yet, and then syncing it
/// again, leaves it as if only the second sync had run: the second rewrite
/// replaces the block the first one added and nothing else. With the same
/// names both times, the second sync changes nothing.
pub proof fn lemma_sync_again(text: Seq<char>, first: Seq<Seq<char>>, then: Seq<Seq<char>>)
    requires
        fresh_config(text),
        forall|i: int| 0 <= i < first.len() ==> plain_name(#[trigger] first[i]),
    ensures
        with_workspaces_text(with_workspaces_text(text, first), then) == with_workspaces_text(
            text,
            then,
        ),
        with_workspaces_text(with_workspaces_text(text, first), first) == with_workspaces_text(
            text,
            first,
        ),
{
    lemma_first_sync(text, first);
    lemma_first_sync(text, then);
    lemma_resync(lines_before(text), lines_after(text), first, then);
    lemma_resync(lines_before(text), lines_after(text), first, first);
}

/// Syncing a config that already holds sling's block, and then syncing it
/// again with the same names, changes nothing the first sync did not.
pub proof fn lemma_sync_twice(
    x: Seq<Seq<char>>,
    y: Seq<Seq<char>>,
    old_names: Seq<Seq<char>>,
    names: Seq<Seq<char>>,
)
    requires
        forall|i: int| 0 <= i < x.len() ==> clean_line(#[trigger] x[i]),
        forall|i: int| 0 <= i < y.len() ==> clean_line(#[trigger] y[i]),
        forall|i: int| 0 <= i < old_names.len() ==> plain_name(#[trigger] old_names[i]),
        forall|i: int| 0 <= i < names.len() ==> plain_name(#[trigger] names[i]),
    ensures
        ({
            let once = with_workspaces_text(joined(x + block_lines(old_names) + y), names);
            with_workspaces_text(once, names) == once
        }),
{
    lemma_resync(x, y, old_names, names);
    lemma_resync(x, y, names, names);
}

/// Whether a config line declares version 2.
pub open spec fn says_version_2(line: Seq<char>) -> bool {
    let l = trim(line);
    !starts_with(l, "#"@) && starts_with(l, "config-version"@) && has_char(l, '2')
}

/// Does the config say version 2? `persistent-workspaces` is ignored without
/// it, silently, which is a bad way to find out.
pub fn declares_version_2(text: &str) -> (r: bool)
    ensures
        r == exists|k: int| 0 <= k < lines(text@).len() && says_version_2(#[trigger] lines(text@)[k]),
{
    let ls = lines_exec(chars_of(text).as_slice());
    let hash = chars_of("#");
    let key = chars_of("config-version");
    let mut i: usize = 0;
    while i < ls.len()
        invariant
            i <= ls@.len(),
            ls@.len() == lines(text@).len(),
            forall|k: int| 0 <= k < ls@.len() ==> #[trigger] ls@[k]@ == lines(text@)[k],
            hash@ == "#"@,
            key@ == "config-version"@,
            forall|k: int| 0 <= k < i ==> !says_version_2(#[trigger] lines(text@)[k]),
        decreases ls.len() - i,
    {
        let l = trim_chars(ls[i].as_slice());
        if !starts_with_chars(l.as_slice(), hash.as_slice()) && starts_with_chars(
            l.as_slice(),
            key.as_slice(),
        ) && has_char_exec(l.as_slice(), '2') {
            assert(says_version_2(lines(text@)[i as int]));
            return true;
        }
        i += 1;
    }
    false
}

} // verus!
