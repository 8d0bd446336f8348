//! Texts made of whole lines: each line followed by a newline. Such a text
//! splits back into exactly the lines it was made of, which is what lets a
//! rewrite of a config be reasoned about line by line.
use vstd::prelude::*;

use crate::text::{
    find, has_char, lemma_find_from, lemma_find_none, lemma_find_unique, lemma_split_char_nonempty,
    line_at, lines, occurs_at, split_char, starts_with, trail, trim_end, ws,
};

verus! {

/// Lines put back together, each ended by a newline.
pub open spec fn joined(ls: Seq<Seq<char>>) -> Seq<char>
    decreases ls.len(),
{
    if ls.len() == 0 {
        Seq::<char>::empty()
    } else {
        joined(ls.drop_last()) + ls.last() + seq!['\n']
    }
}

/// A line that `str::lines` hands back as it is: no newline in it and no
/// carriage return at its end.
pub open spec fn plain_line(l: Seq<char>) -> bool {
    !has_char(l, '\n') && !(l.len() > 0 && l.last() == '\r')
}

pub proof fn lemma_joined_one(l: Seq<char>)
    ensures
        joined(seq![l]) == l + seq!['\n'],
{
    let one = seq![l];
    assert(one.drop_last() =~= Seq::<Seq<char>>::empty());
    assert(joined(one.drop_last()) =~= Seq::<char>::empty());
    assert(joined(one) =~= l + seq!['\n']);
}

pub proof fn lemma_joined_append(a: Seq<Seq<char>>, b: Seq<Seq<char>>)
    ensures
        joined(a + b) == joined(a) + joined(b),
    decreases b.len(),
{
    if b.len() == 0 {
        assert(a + b =~= a);
        assert(joined(b) =~= Seq::<char>::empty());
        assert(joined(a) + joined(b) =~= joined(a));
    } else {
        lemma_joined_append(a, b.drop_last());
        assert((a + b).drop_last() =~= a + b.drop_last());
        assert((a + b).last() == b.last());
        assert(joined(a + b) =~= joined(a) + joined(b));
    }
}

/// Splitting a text with no separator in it gives the text back whole.
pub proof fn lemma_split_none(s: Seq<char>, c: char)
    requires
        !has_char(s, c),
    ensures
        split_char(s, c) == seq![s],
    decreases s.len(),
{
    if s.len() == 0 {
        assert(s =~= Seq::<char>::empty());
    } else {
        assert(!has_char(s.drop_last(), c)) by {
            if s.drop_last().contains(c) {
                let i = choose|i: int| 0 <= i < s.drop_last().len() && s.drop_last()[i] == c;
                assert(s[i] == c);
            }
        }
        lemma_split_none(s.drop_last(), c);
        assert(s[s.len() - 1] != c);
        assert(s.drop_last().push(s.last()) =~= s);
        assert(split_char(s, c) =~= seq![s]);
    }
}

/// Splitting at a separator: the pieces of each side, side by side.
pub proof fn lemma_split_concat(a: Seq<char>, b: Seq<char>, c: char)
    ensures
        split_char(a + seq![c] + b, c) == split_char(a, c) + split_char(b, c),
    decreases b.len(),
{
    lemma_split_char_nonempty(b, c);
    if b.len() == 0 {
        assert((a + seq![c] + b).drop_last() =~= a);
        assert(split_char(a + seq![c] + b, c) =~= split_char(a, c) + split_char(b, c));
    } else {
        let s = a + seq![c] + b;
        lemma_split_concat(a, b.drop_last(), c);
        lemma_split_char_nonempty(b.drop_last(), c);
        lemma_split_char_nonempty(a, c);
        assert(s.drop_last() =~= a + seq![c] + b.drop_last());
        assert(s.last() == b.last());
        let ra = split_char(a, c);
        let rb = split_char(b.drop_last(), c);
        if b.last() == c {
            assert(split_char(s, c) =~= ra + rb.push(Seq::<char>::empty()));
        } else {
            assert(split_char(s, c) =~= ra + rb.update(rb.len() - 1, rb.last().push(b.last())));
        }
    }
}

/// Whole lines, then a piece with no newline: the lines and the piece.
pub proof fn lemma_split_joined(ls: Seq<Seq<char>>, s: Seq<char>)
    requires
        forall|k: int| 0 <= k < ls.len() ==> !has_char(#[trigger] ls[k], '\n'),
        !has_char(s, '\n'),
    ensures
        split_char(joined(ls) + s, '\n') == ls.push(s),
    decreases ls.len(),
{
    if ls.len() == 0 {
        assert(joined(ls) + s =~= s);
        lemma_split_none(s, '\n');
        assert(ls.push(s) =~= seq![s]);
    } else {
        let front = ls.drop_last();
        let l = ls.last();
        lemma_split_joined(front, l);
        lemma_split_none(s, '\n');
        assert(joined(ls) + s =~= (joined(front) + l) + seq!['\n'] + s);
        lemma_split_concat(joined(front) + l, s, '\n');
        assert(front.push(l) =~= ls);
        assert(ls + seq![s] =~= ls.push(s));
    }
}

/// Whole plain lines split back into exactly those lines.
pub proof fn lemma_lines_joined(ls: Seq<Seq<char>>)
    requires
        forall|k: int| 0 <= k < ls.len() ==> plain_line(#[trigger] ls[k]),
    ensures
        lines(joined(ls)) == ls,
{
    assert forall|k: int| 0 <= k < ls.len() implies !has_char(#[trigger] ls[k], '\n') by {
        assert(plain_line(ls[k]));
    }
    lemma_split_joined(ls, Seq::<char>::empty());
    assert(joined(ls) + Seq::<char>::empty() =~= joined(ls));
    let pieces = split_char(joined(ls), '\n');
    assert(pieces == ls.push(Seq::<char>::empty()));
    assert forall|k: int| 0 <= k < ls.len() implies line_at(pieces, k) == ls[k] by {
        assert(pieces[k] == ls[k]);
        assert(plain_line(ls[k]));
    }
    assert(lines(joined(ls)) =~= ls);
}

/// Where a line starts in the joined text.
pub proof fn lemma_line_start_joined(ls: Seq<Seq<char>>, k: int)
    requires
        0 <= k <= ls.len(),
    ensures
        crate::aeroconf::line_start(ls, k) == joined(ls.take(k)).len(),
    decreases k,
{
    if k > 0 {
        lemma_line_start_joined(ls, k - 1);
        assert(ls.take(k).drop_last() =~= ls.take(k - 1));
        assert(ls.take(k).last() == ls[k - 1]);
    }
}

/// A text is its pieces put back together, a newline between each two.
pub proof fn lemma_pieces_joined(s: Seq<char>)
    ensures
        split_char(s, '\n').len() >= 1,
        s == joined(split_char(s, '\n').drop_last()) + split_char(s, '\n').last(),
    decreases s.len(),
{
    lemma_split_char_nonempty(s, '\n');
    if s.len() == 0 {
        assert(split_char(s, '\n').drop_last() =~= Seq::<Seq<char>>::empty());
        assert(s =~= Seq::<char>::empty());
        assert(joined(Seq::<Seq<char>>::empty()) + Seq::<char>::empty() =~= Seq::<char>::empty());
    } else {
        let front = s.drop_last();
        lemma_pieces_joined(front);
        let r = split_char(front, '\n');
        let p = split_char(s, '\n');
        if s.last() == '\n' {
            assert(p.drop_last() =~= r);
            assert(joined(r) =~= joined(r.drop_last()) + r.last() + seq!['\n']);
            assert(s =~= front.push('\n'));
            assert(s =~= joined(p.drop_last()) + p.last());
        } else {
            assert(p.drop_last() =~= r.drop_last());
            assert(p.last() =~= r.last().push(s.last()));
            assert(s =~= front.push(s.last()));
            assert(s =~= joined(p.drop_last()) + p.last());
        }
    }
}

/// A pattern with no newline in it that no line holds is nowhere in the
/// joined text.
pub proof fn lemma_absent_joined(ls: Seq<Seq<char>>, p: Seq<char>)
    requires
        p.len() > 0,
        !has_char(p, '\n'),
        forall|k: int| 0 <= k < ls.len() ==> (#[trigger] find(ls[k], p)) is None,
    ensures
        forall|x: int| !#[trigger] occurs_at(joined(ls), p, x),
        find(joined(ls), p) is None,
    decreases ls.len(),
{
    if ls.len() > 0 {
        let front = ls.drop_last();
        let l = ls.last();
        let jf = joined(front);
        let j = joined(ls);
        assert forall|k: int| 0 <= k < front.len() implies (#[trigger] find(front[k], p)) is None by {
            assert(front[k] == ls[k]);
        }
        lemma_absent_joined(front, p);
        assert(find(ls[ls.len() - 1], p) is None);
        lemma_find_from(l, p, 0);
        assert(j =~= jf + l + seq!['\n']);
        assert forall|x: int| !#[trigger] occurs_at(j, p, x) by {
            if occurs_at(j, p, x) {
                if x + p.len() <= jf.len() {
                    assert(jf.subrange(x, x + p.len()) =~= j.subrange(x, x + p.len()));
                    assert(occurs_at(jf, p, x));
                } else if x >= jf.len() && x + p.len() <= jf.len() + l.len() {
                    assert(l.subrange(x - jf.len(), x - jf.len() + p.len()) =~= j.subrange(
                        x,
                        x + p.len(),
                    ));
                    assert(occurs_at(l, p, x - jf.len()));
                } else if x < jf.len() {
                    // It would hold the newline that ends the last line before.
                    assert(front.len() > 0);
                    assert(jf =~= joined(front.drop_last()) + front.last() + seq!['\n']);
                    assert(jf[jf.len() - 1] == '\n');
                    assert(j[jf.len() - 1] == '\n');
                    assert(p[jf.len() - 1 - x] == j.subrange(x, x + p.len())[jf.len() - 1 - x]);
                    assert(p.contains(p[jf.len() - 1 - x]));
                } else {
                    // It would hold the newline that ends this line.
                    let at: int = (jf.len() + l.len()) as int;
                    assert(j[at] == '\n');
                    assert(p[at - x] == j.subrange(x, x + p.len())[at - x]);
                    assert(p.contains(p[at - x]));
                }
            }
        }
        lemma_find_none(j, p, 0);
    } else {
        assert forall|x: int| !#[trigger] occurs_at(joined(ls), p, x) by {
            assert(joined(ls).len() == 0);
        }
        lemma_find_none(joined(ls), p, 0);
    }
}

/// The first line that begins with a pattern, when no earlier line holds it,
/// is where the pattern is first found in the joined text.
pub proof fn lemma_found_joined(ls: Seq<Seq<char>>, p: Seq<char>, j: int)
    requires
        p.len() > 0,
        !has_char(p, '\n'),
        0 <= j < ls.len(),
        forall|k: int| 0 <= k < j ==> (#[trigger] find(ls[k], p)) is None,
        starts_with(ls[j], p),
    ensures
        find(joined(ls), p) == Some(joined(ls.take(j)).len() as int),
{
    let before = ls.take(j);
    let after = ls.skip(j);
    assert(ls =~= before + after);
    lemma_joined_append(before, after);
    let jb = joined(before);
    let whole = joined(ls);
    assert forall|k: int| 0 <= k < before.len() implies (#[trigger] find(before[k], p)) is None by {
        assert(before[k] == ls[k]);
    }
    lemma_absent_joined(before, p);
    // The joined rest begins with the line that begins with the pattern.
    assert(after =~= seq![ls[j]] + after.skip(1));
    lemma_joined_append(seq![ls[j]], after.skip(1));
    lemma_joined_one(ls[j]);
    assert(whole.subrange(jb.len() as int, jb.len() + p.len() as int) =~= p);
    assert(occurs_at(whole, p, jb.len() as int));
    assert forall|x: int| 0 <= x < jb.len() implies !#[trigger] occurs_at(whole, p, x) by {
        if occurs_at(whole, p, x) {
            if x + p.len() <= jb.len() {
                assert(jb.subrange(x, x + p.len()) =~= whole.subrange(x, x + p.len()));
                assert(occurs_at(jb, p, x));
            } else {
                assert(before.len() > 0);
                assert(jb =~= joined(before.drop_last()) + before.last() + seq!['\n']);
                assert(whole[jb.len() - 1] == '\n');
                assert(p[jb.len() - 1 - x] == whole.subrange(x, x + p.len())[jb.len() - 1 - x]);
                assert(p.contains(p[jb.len() - 1 - x]));
            }
        }
    }
    lemma_find_unique(whole, p, 0, jb.len() as int);
}

/// A pattern that is nowhere in a text is on none of its lines.
pub proof fn lemma_absent_lines(s: Seq<char>, p: Seq<char>, k: int)
    requires
        find(s, p) is None,
        0 <= k < lines(s).len(),
    ensures
        find(lines(s)[k], p) is None,
{
    let pieces = split_char(s, '\n');
    lemma_pieces_joined(s);
    lemma_find_from(s, p, 0);
    let front = pieces.drop_last();
    let l = lines(s)[k];
    // The piece the line comes from, and where it sits.
    let (piece, at) = if k < front.len() {
        assert(front =~= front.take(k) + front.skip(k));
        lemma_joined_append(front.take(k), front.skip(k));
        assert(front.skip(k) =~= seq![front[k]] + front.skip(k + 1));
        lemma_joined_append(seq![front[k]], front.skip(k + 1));
        lemma_joined_one(front[k]);
        (front[k], joined(front.take(k)).len() as int)
    } else {
        (pieces.last(), joined(front).len() as int)
    };
    assert(piece == pieces[k]);
    assert(s.subrange(at, at + piece.len()) =~= piece);
    assert(l == line_at(pieces, k));
    assert(l.len() <= piece.len());
    assert forall|x: int| !#[trigger] occurs_at(l, p, x) by {
        if occurs_at(l, p, x) {
            assert(forall|i: int| 0 <= i < l.len() ==> l[i] == piece[i]);
            assert(s.subrange(at + x, at + x + p.len()) =~= l.subrange(x, x + p.len()));
            assert(occurs_at(s, p, at + x));
        }
    }
    lemma_find_none(l, p, 0);
}

/// No piece of a split holds the separator.
pub proof fn lemma_pieces_free(s: Seq<char>, c: char)
    ensures
        forall|k: int|
            0 <= k < split_char(s, c).len() ==> !has_char(#[trigger] split_char(s, c)[k], c),
    decreases s.len(),
{
    lemma_split_char_nonempty(s, c);
    if s.len() > 0 {
        lemma_pieces_free(s.drop_last(), c);
        lemma_split_char_nonempty(s.drop_last(), c);
        let r = split_char(s.drop_last(), c);
        let p = split_char(s, c);
        assert forall|k: int| 0 <= k < p.len() implies !has_char(#[trigger] p[k], c) by {
            if k < r.len() - 1 {
                assert(p[k] == r[k]);
            } else if s.last() == c {
                if k == r.len() - 1 {
                    assert(p[k] == r[k]);
                } else {
                    assert(p[k] =~= Seq::<char>::empty());
                }
            } else {
                let l = r.last().push(s.last());
                assert(p[k] == l);
                assert(!has_char(r[r.len() - 1], c));
                if l.contains(c) {
                    let i = choose|i: int| 0 <= i < l.len() && l[i] == c;
                    assert(i < r.last().len());
                    assert(r.last()[i] == c);
                }
            }
        }
    }
}

/// No line of a text holds a newline.
pub proof fn lemma_lines_free(s: Seq<char>, k: int)
    requires
        0 <= k < lines(s).len(),
    ensures
        !has_char(lines(s)[k], '\n'),
{
    let pieces = split_char(s, '\n');
    lemma_pieces_free(s, '\n');
    lemma_split_char_nonempty(s, '\n');
    let l = lines(s)[k];
    assert(l == line_at(pieces, k));
    assert(!has_char(pieces[k], '\n'));
    if l.contains('\n') {
        let i = choose|i: int| 0 <= i < l.len() && l[i] == '\n';
        assert(pieces[k][i] == '\n');
    }
}

pub proof fn lemma_trail_concat(a: Seq<char>, b: Seq<char>, p: spec_fn(char) -> bool)
    ensures
        trail(a + b, p) == if trail(b, p) == b.len() {
            b.len() + trail(a, p)
        } else {
            trail(b, p)
        },
    decreases b.len(),
{
    if b.len() == 0 {
        assert(a + b =~= a);
    } else {
        lemma_trail_concat(a, b.drop_last(), p);
        assert((a + b).drop_last() =~= a + b.drop_last());
        assert((a + b).last() == b.last());
    }
}

/// The last line with anything but whitespace on it.
pub open spec fn last_solid(ls: Seq<Seq<char>>) -> Option<int>
    decreases ls.len(),
{
    if ls.len() == 0 {
        None
    } else if trim_end(ls.last()).len() > 0 {
        Some(ls.len() - 1)
    } else {
        last_solid(ls.drop_last())
    }
}

/// Trimming the end of whole lines drops the blank lines at the end and the
/// trailing whitespace of the last line that is not blank.
pub proof fn lemma_trim_end_joined(ls: Seq<Seq<char>>)
    ensures
        match last_solid(ls) {
            None => trim_end(joined(ls)) == Seq::<char>::empty(),
            Some(j) => 0 <= j < ls.len() && trim_end(ls[j]).len() > 0 && trim_end(joined(ls))
                == joined(ls.take(j)) + trim_end(ls[j]),
        },
    decreases ls.len(),
{
    if ls.len() == 0 {
        assert(trim_end(joined(ls)) =~= Seq::<char>::empty());
    } else {
        let front = ls.drop_last();
        let l = ls.last();
        let jf = joined(front);
        let nl = seq!['\n'];
        assert(joined(ls) =~= jf + (l + nl));
        lemma_trail_concat(l, nl, ws());
        assert(nl.drop_last() =~= Seq::<char>::empty());
        assert(('\n' as u32) == 10);
        assert(ws()(nl.last()));
        assert(trail(nl.drop_last(), ws()) == 0);
        assert(trail(nl, ws()) == 1);
        lemma_trail_concat(jf, l + nl, ws());
        let tl = trail(l, ws());
        crate::text::lemma_trail_bounded(l, ws());
        crate::text::lemma_trail_bounded(jf, ws());
        assert(trail(l + nl, ws()) == 1 + tl);
        let whole = jf + (l + nl);
        if trim_end(l).len() > 0 {
            assert(tl < l.len());
            assert(trail(whole, ws()) == 1 + tl);
            assert(whole.take(whole.len() - (1 + tl)) =~= jf + l.take(l.len() - tl));
            assert(ls.take(ls.len() - 1) =~= front);
            assert(trim_end(joined(ls)) =~= jf + trim_end(l));
        } else {
            lemma_trim_end_joined(front);
            assert(tl == l.len());
            assert(trail(whole, ws()) == l.len() + 1 + trail(jf, ws()));
            assert(whole.take(whole.len() - trail(whole, ws())) =~= jf.take(jf.len() - trail(jf, ws())));
            assert(trim_end(joined(ls)) =~= trim_end(jf));
            match last_solid(front) {
                None => {},
                Some(j) => {
                    assert(ls.take(j) =~= front.take(j));
                    assert(ls[j] == front[j]);
                },
            }
        }
    }
}

} // verus!
