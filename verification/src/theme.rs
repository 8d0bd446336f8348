//! Colours, inherited rather than invented.
//!
//! Omarchy plugins are theme-aware by convention: they follow the system
//! theme instead of shipping a palette. There is no system theme to read on
//! macOS, but there is something better — the terminal this all revolves
//! around. Taking Ghostty's colours means the panel matches the windows it
//! appears over, and changes when they do. Reading Ghostty's config file is
//! the program's business; what its text says is worked out here.
use vstd::prelude::*;

use crate::text::{
    chars_of, concat_chars, lines, lines_exec, owned, parse_usize, parse_usize_exec, same_chars,
    split_once_char, split_once_char_exec, string_of, trim, trim_by, trim_char, trim_chars, is_char,
};

verus! {

#[derive(Debug, Clone, PartialEq, Eq)]
pub struct Theme {
    pub background: String,
    pub foreground: String,
    pub accent: String,
    pub ok: String,
    pub warn: String,
    pub dim: String,
}

/// A theme as text.
pub struct ThemeView {
    pub background: Seq<char>,
    pub foreground: Seq<char>,
    pub accent: Seq<char>,
    pub ok: Seq<char>,
    pub warn: Seq<char>,
    pub dim: Seq<char>,
}

impl View for Theme {
    type V = ThemeView;

    open spec fn view(&self) -> ThemeView {
        ThemeView {
            background: self.background@,
            foreground: self.foreground@,
            accent: self.accent@,
            ok: self.ok@,
            warn: self.warn@,
            dim: self.dim@,
        }
    }
}

/// Ghostty's own defaults, used when there is nothing to read.
pub open spec fn fallback() -> ThemeView {
    ThemeView {
        background: "#11111b"@,
        foreground: "#cdd6f4"@,
        accent: "#89b4fa"@,
        ok: "#a6e3a1"@,
        warn: "#fab387"@,
        dim: "#6c7086"@,
    }
}

impl Default for Theme {
    fn default() -> (t: Self)
        ensures
            t@ == fallback(),
    {
        Theme {
            background: owned("#11111b"),
            foreground: owned("#cdd6f4"),
            accent: owned("#89b4fa"),
            ok: owned("#a6e3a1"),
            warn: owned("#fab387"),
            dim: owned("#6c7086"),
        }
    }
}

/// A colour as written, made into one `#rrggbb` can be taken from: trimmed,
/// unquoted, and given its `#` if it came without one.
pub open spec fn normalised(value: Seq<char>) -> Seq<char> {
    let v = trim_by(trim(value), is_char('"'));
    if v.len() > 0 && v[0] == '#' {
        v
    } else {
        seq!['#'] + v
    }
}

/// The key and value a config line sets, both trimmed; nothing for a
/// comment or a line without `=`.
pub open spec fn setting(line: Seq<char>) -> Option<(Seq<char>, Seq<char>)> {
    let l = trim(line);
    if l.len() > 0 && l[0] == '#' {
        None
    } else {
        match split_once_char(l, '=') {
            Some((k, v)) => Some((trim(k), trim(v))),
            None => None,
        }
    }
}

/// What has been read so far: background, foreground, and the 16 palette
/// slots, each set or not.
pub type Reading = (Option<Seq<char>>, Option<Seq<char>>, Seq<Option<Seq<char>>>);

/// One line's effect on what has been read.
pub open spec fn read_line(r: Reading, line: Seq<char>) -> Reading {
    match setting(line) {
        None => r,
        Some((key, value)) => if key == "background"@ {
            (Some(normalised(value)), r.1, r.2)
        } else if key == "foreground"@ {
            (r.0, Some(normalised(value)), r.2)
        } else if key == "palette"@ {
            match split_once_char(value, '=') {
                Some((index, colour)) => match parse_usize(trim(index)) {
                    Some(i) => if i < 16 {
                        (r.0, r.1, r.2.update(i as int, Some(normalised(trim(colour)))))
                    } else {
                        r
                    },
                    None => r,
                },
                None => r,
            }
        } else {
            r
        },
    }
}

pub open spec fn unread() -> Reading {
    (None, None, Seq::new(16, |i: int| None::<Seq<char>>))
}

/// Every line's effect, in order.
pub open spec fn read_lines(ls: Seq<Seq<char>>) -> Reading
    decreases ls.len(),
{
    if ls.len() == 0 {
        unread()
    } else {
        read_line(read_lines(ls.drop_last()), ls.last())
    }
}

/// The first of two palette slots that is set, else a default.
pub open spec fn slot_or(p: Seq<Option<Seq<char>>>, bright: int, normal: int, dflt: Seq<char>) -> Seq<
    char,
> {
    match p[bright] {
        Some(c) => c,
        None => match p[normal] {
            Some(c) => c,
            None => dflt,
        },
    }
}

/// The theme a Ghostty config describes.
pub open spec fn theme_of(text: Seq<char>) -> ThemeView {
    let r = read_lines(lines(text));
    let f = fallback();
    ThemeView {
        background: match r.0 {
            Some(c) => c,
            None => f.background,
        },
        foreground: match r.1 {
            Some(c) => c,
            None => f.foreground,
        },
        accent: slot_or(r.2, 12, 4, f.accent),
        ok: slot_or(r.2, 10, 2, f.ok),
        warn: slot_or(r.2, 11, 3, f.warn),
        dim: slot_or(r.2, 8, 0, f.dim),
    }
}

fn normalise(value: &[char]) -> (r: Vec<char>)
    ensures
        r@ == normalised(value@),
{
    let v = trim_char(trim_chars(value).as_slice(), '"');
    if v.len() > 0 && v[0] == '#' {
        v
    } else {
        let hash = vec!['#'];
        concat_chars(hash.as_slice(), v.as_slice())
    }
}

fn is_key(k: &Vec<char>, name: &str) -> (r: bool)
    ensures
        r == (k@ == name@),
{
    same_chars(k.as_slice(), chars_of(name).as_slice())
}

pub open spec fn chars_view(o: Option<Vec<char>>) -> Option<Seq<char>> {
    match o {
        Some(v) => Some(v@),
        None => None,
    }
}

pub open spec fn slots_view(p: Seq<Option<Vec<char>>>) -> Seq<Option<Seq<char>>> {
    p.map_values(
        |o: Option<Vec<char>>|
            match o {
                Some(v) => Some(v@),
                None => None,
            },
    )
}

fn slot_or_exec(p: &Vec<Option<Vec<char>>>, bright: usize, normal: usize, dflt: &str) -> (r: String)
    requires
        bright < p@.len(),
        normal < p@.len(),
    ensures
        r@ == slot_or(slots_view(p@), bright as int, normal as int, dflt@),
{
    match &p[bright] {
        Some(c) => string_of(c.as_slice()),
        None => match &p[normal] {
            Some(c) => string_of(c.as_slice()),
            None => owned(dflt),
        },
    }
}

/// Ghostty's config is `key = value`, with the 16 ANSI colours given as
/// `palette = N=#rrggbb`. Only the few entries that matter are read; anything
/// unparseable simply keeps its fallback rather than failing.
pub fn parse(text: &str) -> (t: Theme)
    ensures
        t@ == theme_of(text@),
{
    let ls = lines_exec(chars_of(text).as_slice());
    let ghost lv = lines(text@);
    let mut background: Option<Vec<char>> = None;
    let mut foreground: Option<Vec<char>> = None;
    let mut palette: Vec<Option<Vec<char>>> = Vec::new();
    let mut n: usize = 0;
    while n < 16
        invariant
            n <= 16,
            palette@.len() == n,
            forall|k: int| 0 <= k < n ==> #[trigger] palette@[k] is None,
        decreases 16 - n,
    {
        palette.push(None);
        n += 1;
    }
    proof {
        assert(slots_view(palette@) =~= unread().2);
    }
    let mut i: usize = 0;
    while i < ls.len()
        invariant
            i <= ls@.len(),
            ls@.len() == lv.len(),
            lv == lines(text@),
            forall|k: int| 0 <= k < ls@.len() ==> #[trigger] ls@[k]@ == lv[k],
            palette@.len() == 16,
            (chars_view(background), chars_view(foreground), slots_view(palette@)) == read_lines(
                lv.take(i as int),
            ),
        decreases ls.len() - i,
    {
        proof {
            assert(lv.take(i + 1).drop_last() =~= lv.take(i as int));
            assert(lv.take(i + 1).last() == lv[i as int]);
        }
        let line = trim_chars(ls[i].as_slice());
        if !(line.len() > 0 && line[0] == '#') {
            match split_once_char_exec(line.as_slice(), '=') {
                Some((k, v)) => {
                    let key = trim_chars(k.as_slice());
                    let value = trim_chars(v.as_slice());
                    if is_key(&key, "background") {
                        background = Some(normalise(value.as_slice()));
                    } else if is_key(&key, "foreground") {
                        foreground = Some(normalise(value.as_slice()));
                    } else if is_key(&key, "palette") {
                        match split_once_char_exec(value.as_slice(), '=') {
                            Some((index, colour)) => {
                                match parse_usize_exec(trim_chars(index.as_slice()).as_slice()) {
                                    Some(at) => {
                                        if at < 16 {
                                            let ghost before = palette@;
                                            let c = normalise(trim_chars(colour.as_slice()).as_slice());
                                            palette.set(at, Some(c));
                                            assert(slots_view(palette@) =~= slots_view(before).update(
                                                at as int,
                                                Some(c@),
                                            ));
                                        }
                                    },
                                    None => {},
                                }
                            },
                            None => {},
                        }
                    }
                },
                None => {},
            }
        }
        i += 1;
    }
    proof {
        assert(lv.take(lv.len() as int) =~= lv);
    }
    let dflt = Theme::default();
    Theme {
        background: match &background {
            Some(c) => string_of(c.as_slice()),
            None => dflt.background,
        },
        foreground: match &foreground {
            Some(c) => string_of(c.as_slice()),
            None => dflt.foreground,
        },
        accent: slot_or_exec(&palette, 12, 4, "#89b4fa"),
        ok: slot_or_exec(&palette, 10, 2, "#a6e3a1"),
        warn: slot_or_exec(&palette, 11, 3, "#fab387"),
        dim: slot_or_exec(&palette, 8, 0, "#6c7086"),
    }
}

/// A Ghostty line setting palette slot `i`: `palette = i=colour`.
pub open spec fn palette_line(i: nat, colour: Seq<char>) -> Seq<char> {
    "palette = "@ + crate::text::decimal(i) + "="@ + colour
}

/// A colour as a config line can carry it: something, on one line, with
/// no space around it.
pub open spec fn colour_text(c: Seq<char>) -> bool {
    c.len() > 0 && trim(c) == c && !c.contains('\n')
}

proof fn lemma_trimmed_ends(c: Seq<char>)
    requires
        colour_text(c),
    ensures
        !crate::text::is_ws(c[0]),
        !crate::text::is_ws(c.last()),
{
    let w = crate::text::ws();
    crate::text::lemma_lead_bounded(c, w);
    let t = crate::text::trim_start(c);
    crate::text::lemma_trail_bounded(t, w);
    assert(trim(c).len() == c.len());
    assert(crate::text::lead(c, w) == 0);
    assert(t =~= c);
    assert(crate::text::trail(c, w) == 0);
}

proof fn lemma_trim_keeps(s: Seq<char>)
    requires
        s.len() > 0,
        !crate::text::is_ws(s[0]),
        !crate::text::is_ws(s.last()),
    ensures
        trim(s) == s,
{
    let w = crate::text::ws();
    crate::text::lemma_lead_is(s, w, 0);
    assert(crate::text::trim_start(s) =~= s);
    crate::text::lemma_trail_is(s, w, s.len() as int);
    assert(trim(s) =~= s);
}

proof fn lemma_first_eq(s: Seq<char>, at: int)
    requires
        0 <= at < s.len(),
        s[at] == '=',
        forall|j: int| 0 <= j < at ==> s[j] != '=',
    ensures
        split_once_char(s, '=') == Some((s.take(at), s.skip(at + 1))),
{
    assert forall|j: int| 0 <= j < at implies !#[trigger] crate::text::occurs_at(s, seq!['='], j) by {
        crate::text::lemma_occurs_single(s, '=', j);
    }
    crate::text::lemma_occurs_single(s, '=', at);
    crate::text::lemma_find_unique(s, seq!['='], 0, at);
}

/// What a palette line sets: the key `palette`, and its slot, `=` and its
/// colour as the value.
#[verifier::spinoff_prover]
#[verifier::rlimit(40)]
proof fn lemma_palette_setting(i: nat, c: Seq<char>)
    requires
        colour_text(c),
    ensures
        setting(palette_line(i, c)) == Some(("palette"@, crate::text::decimal(i) + "="@ + c)),
{
    reveal_strlit("palette = ");
    reveal_strlit("=");
    reveal_strlit("palette");
    let d = crate::text::decimal(i);
    crate::text::lemma_decimal_reads_back(i);
    lemma_trimmed_ends(c);
    let line = palette_line(i, c);
    assert(line[0] == 'p');
    assert(line.last() == c.last());
    lemma_trim_keeps(line);
    let l = trim(line);
    assert(l == line);
    assert forall|j: int| 0 <= j < 8 implies l[j] != '=' by {
        assert(l[j] == "palette = "@[j]);
    }
    assert(l[8] == '=');
    lemma_first_eq(l, 8);
    let k = l.take(8);
    let v = l.skip(9);
    assert forall|j: int| 0 <= j < 8 implies k[j] == "palette = "@[j] by {}
    assert(k[0] == 'p' && k[6] == 'e' && k[7] == ' ');
    crate::text::lemma_lead_is(k, crate::text::ws(), 0);
    assert(crate::text::trim_start(k) =~= k);
    crate::text::lemma_trail_is(k, crate::text::ws(), 7);
    assert(trim(k) =~= "palette"@);
    let value = d + "="@ + c;
    assert(v =~= seq![' '] + value);
    assert(crate::text::is_digit(d[0]));
    crate::text::lemma_lead_is(v, crate::text::ws(), 1);
    assert(crate::text::trim_start(v) =~= value);
    assert(value.last() == c.last());
    crate::text::lemma_trail_is(value, crate::text::ws(), value.len() as int);
    assert(trim(v) =~= value);
}

/// A palette line sets its slot to the colour it names, and nothing else.
#[verifier::spinoff_prover]
#[verifier::rlimit(40)]
pub proof fn lemma_palette_line_read(r: Reading, i: nat, c: Seq<char>)
    requires
        i < 16,
        r.2.len() == 16,
        colour_text(c),
    ensures
        read_line(r, palette_line(i, c)) == (r.0, r.1, r.2.update(i as int, Some(normalised(c)))),
{
    reveal_strlit("=");
    reveal_strlit("palette");
    reveal_strlit("background");
    reveal_strlit("foreground");
    let d = crate::text::decimal(i);
    crate::text::lemma_decimal_reads_back(i);
    lemma_trimmed_ends(c);
    lemma_palette_setting(i, c);
    let value = d + "="@ + c;
    assert("palette"@ != "background"@ && "palette"@ != "foreground"@) by {
        assert("palette"@.len() != "background"@.len());
        assert("palette"@.len() != "foreground"@.len());
    }
    assert forall|j: int| 0 <= j < d.len() implies value[j] != '=' by {
        assert(value[j] == d[j]);
        assert(crate::text::is_digit(d[j]));
    }
    assert(value[d.len() as int] == '=');
    lemma_first_eq(value, d.len() as int);
    assert(value.take(d.len() as int) =~= d);
    assert(value.skip(d.len() as int + 1) =~= c);
    assert(crate::text::is_digit(d.last()));
    lemma_trim_keeps(d);
    assert(crate::text::parse_usize(d) == Some(i));
}

proof fn lemma_reading_len(ls: Seq<Seq<char>>)
    ensures
        read_lines(ls).2.len() == 16,
    decreases ls.len(),
{
    if ls.len() > 0 {
        lemma_reading_len(ls.drop_last());
    }
}

proof fn lemma_two_palette_lines(ls: Seq<Seq<char>>, i: nat, a: Seq<char>, j: nat, b: Seq<char>)
    requires
        forall|k: int| 0 <= k < ls.len() ==> crate::lined::plain_line(#[trigger] ls[k]),
        i < 16,
        j < 16,
        colour_text(a),
        colour_text(b),
    ensures
        lines(crate::lined::joined(ls.push(palette_line(i, a)))) == ls.push(palette_line(i, a)),
        lines(crate::lined::joined(ls.push(palette_line(i, a)).push(palette_line(j, b)))) == ls.push(
            palette_line(i, a),
        ).push(palette_line(j, b)),
        read_lines(ls.push(palette_line(i, a))).2 == read_lines(ls).2.update(
            i as int,
            Some(normalised(a)),
        ),
        read_lines(ls.push(palette_line(i, a)).push(palette_line(j, b))).2 == read_lines(ls).2.update(
            i as int,
            Some(normalised(a)),
        ).update(j as int, Some(normalised(b))),
{
    let pa = palette_line(i, a);
    let pb = palette_line(j, b);
    lemma_trimmed_ends(a);
    lemma_trimmed_ends(b);
    assert forall|x: Seq<char>, c: Seq<char>, n: nat|
        colour_text(c) && x == palette_line(n, c) implies crate::lined::plain_line(x) by {
        lemma_trimmed_ends(c);
        crate::text::lemma_decimal_reads_back(n);
        reveal_strlit("palette = ");
        reveal_strlit("=");
        let d = crate::text::decimal(n);
        if crate::text::has_char(x, '\n') {
            let k = choose|k: int| 0 <= k < x.len() && x[k] == '\n';
            if k < 10 {
                assert(x[k] == "palette = "@[k]);
            } else if k < 10 + d.len() {
                assert(x[k] == d[k - 10]);
                assert(crate::text::is_digit(d[k - 10]));
            } else if k == 10 + d.len() {
                assert(x[k] == '=');
            } else {
                assert(x[k] == c[k - 11 - d.len()]);
                assert(c.contains('\n'));
            }
        }
        assert(x.last() == c.last());
        assert(('\r' as u32) == 13);
    }
    let one = ls.push(pa);
    let two = one.push(pb);
    assert forall|k: int| 0 <= k < one.len() implies crate::lined::plain_line(#[trigger] one[k]) by {
        if k < ls.len() {
            assert(one[k] == ls[k]);
        }
    }
    assert forall|k: int| 0 <= k < two.len() implies crate::lined::plain_line(#[trigger] two[k]) by {
        if k < one.len() {
            assert(two[k] == one[k]);
        }
    }
    crate::lined::lemma_lines_joined(one);
    crate::lined::lemma_lines_joined(two);
    lemma_reading_len(ls);
    assert(one.drop_last() =~= ls);
    assert(two.drop_last() =~= one);
    lemma_palette_line_read(read_lines(ls), i, a);
    lemma_reading_len(one);
    lemma_palette_line_read(read_lines(one), j, b);
}

/// A config that sets bright yellow (palette 11) warns in it, whatever
/// normal yellow (palette 3) says and in either order; normal yellow is used
/// when it is the only yellow set.
pub proof fn lemma_warn_prefers_bright(ls: Seq<Seq<char>>, bright: Seq<char>, normal: Seq<char>)
    requires
        forall|k: int| 0 <= k < ls.len() ==> crate::lined::plain_line(#[trigger] ls[k]),
        colour_text(bright),
        colour_text(normal),
    ensures
        theme_of(crate::lined::joined(ls.push(palette_line(11, bright)))).warn == normalised(bright),
        theme_of(crate::lined::joined(ls.push(palette_line(11, bright)).push(palette_line(3, normal)))).warn
            == normalised(bright),
        theme_of(crate::lined::joined(ls.push(palette_line(3, normal)).push(palette_line(11, bright)))).warn
            == normalised(bright),
        theme_of(crate::lined::joined(seq![palette_line(3, normal)])).warn == normalised(normal),
{
    lemma_two_palette_lines(ls, 11, bright, 3, normal);
    lemma_two_palette_lines(ls, 3, normal, 11, bright);
    lemma_two_palette_lines(Seq::empty(), 3, normal, 3, normal);
    lemma_reading_len(ls);
    lemma_reading_len(Seq::empty());
    let e = Seq::<Seq<char>>::empty();
    assert(e.push(palette_line(3, normal)) =~= seq![palette_line(3, normal)]);
    let pb = palette_line(11, bright);
    let pn = palette_line(3, normal);
    let r = read_lines(ls).2;
    assert(read_lines(lines(crate::lined::joined(ls.push(pb)))).2 == r.update(11, Some(normalised(bright))));
    assert(read_lines(lines(crate::lined::joined(ls.push(pb).push(pn)))).2 == r.update(11, Some(normalised(bright))).update(3, Some(normalised(normal))));
    assert(read_lines(lines(crate::lined::joined(ls.push(pn).push(pb)))).2 == r.update(3, Some(normalised(normal))).update(11, Some(normalised(bright))));
    assert(read_lines(lines(crate::lined::joined(seq![pn]))).2 == read_lines(e).2.update(3, Some(normalised(normal))));
}

/// Likewise bright blue (palette 12) over blue (palette 4) for the accent.
pub proof fn lemma_accent_prefers_bright(ls: Seq<Seq<char>>, bright: Seq<char>, normal: Seq<char>)
    requires
        forall|k: int| 0 <= k < ls.len() ==> crate::lined::plain_line(#[trigger] ls[k]),
        colour_text(bright),
        colour_text(normal),
    ensures
        theme_of(crate::lined::joined(ls.push(palette_line(12, bright)))).accent == normalised(bright),
        theme_of(crate::lined::joined(ls.push(palette_line(12, bright)).push(palette_line(4, normal)))).accent
            == normalised(bright),
        theme_of(crate::lined::joined(ls.push(palette_line(4, normal)).push(palette_line(12, bright)))).accent
            == normalised(bright),
        theme_of(crate::lined::joined(seq![palette_line(4, normal)])).accent == normalised(normal),
{
    lemma_two_palette_lines(ls, 12, bright, 4, normal);
    lemma_two_palette_lines(ls, 4, normal, 12, bright);
    lemma_two_palette_lines(Seq::empty(), 4, normal, 4, normal);
    lemma_reading_len(ls);
    lemma_reading_len(Seq::empty());
    let e = Seq::<Seq<char>>::empty();
    assert(e.push(palette_line(4, normal)) =~= seq![palette_line(4, normal)]);
    let pb = palette_line(12, bright);
    let pn = palette_line(4, normal);
    let r = read_lines(ls).2;
    assert(read_lines(lines(crate::lined::joined(ls.push(pb)))).2 == r.update(12, Some(normalised(bright))));
    assert(read_lines(lines(crate::lined::joined(ls.push(pb).push(pn)))).2 == r.update(12, Some(normalised(bright))).update(4, Some(normalised(normal))));
    assert(read_lines(lines(crate::lined::joined(ls.push(pn).push(pb)))).2 == r.update(4, Some(normalised(normal))).update(12, Some(normalised(bright))));
    assert(read_lines(lines(crate::lined::joined(seq![pn]))).2 == read_lines(e).2.update(4, Some(normalised(normal))));
}

/// Likewise bright green (palette 10) over green (palette 2) for ok.
pub proof fn lemma_ok_prefers_bright(ls: Seq<Seq<char>>, bright: Seq<char>, normal: Seq<char>)
    requires
        forall|k: int| 0 <= k < ls.len() ==> crate::lined::plain_line(#[trigger] ls[k]),
        colour_text(bright),
        colour_text(normal),
    ensures
        theme_of(crate::lined::joined(ls.push(palette_line(10, bright)))).ok == normalised(bright),
        theme_of(crate::lined::joined(ls.push(palette_line(10, bright)).push(palette_line(2, normal)))).ok
            == normalised(bright),
        theme_of(crate::lined::joined(ls.push(palette_line(2, normal)).push(palette_line(10, bright)))).ok
            == normalised(bright),
        theme_of(crate::lined::joined(seq![palette_line(2, normal)])).ok == normalised(normal),
{
    lemma_two_palette_lines(ls, 10, bright, 2, normal);
    lemma_two_palette_lines(ls, 2, normal, 10, bright);
    lemma_two_palette_lines(Seq::empty(), 2, normal, 2, normal);
    lemma_reading_len(ls);
    lemma_reading_len(Seq::empty());
    let e = Seq::<Seq<char>>::empty();
    assert(e.push(palette_line(2, normal)) =~= seq![palette_line(2, normal)]);
    let pb = palette_line(10, bright);
    let pn = palette_line(2, normal);
    let r = read_lines(ls).2;
    assert(read_lines(lines(crate::lined::joined(ls.push(pb)))).2 == r.update(10, Some(normalised(bright))));
    assert(read_lines(lines(crate::lined::joined(ls.push(pb).push(pn)))).2 == r.update(10, Some(normalised(bright))).update(2, Some(normalised(normal))));
    assert(read_lines(lines(crate::lined::joined(ls.push(pn).push(pb)))).2 == r.update(2, Some(normalised(normal))).update(10, Some(normalised(bright))));
    assert(read_lines(lines(crate::lined::joined(seq![pn]))).2 == read_lines(e).2.update(2, Some(normalised(normal))));
}

/// Likewise bright black (palette 8) over black (palette 0) for dim.
pub proof fn lemma_dim_prefers_bright(ls: Seq<Seq<char>>, bright: Seq<char>, normal: Seq<char>)
    requires
        forall|k: int| 0 <= k < ls.len() ==> crate::lined::plain_line(#[trigger] ls[k]),
        colour_text(bright),
        colour_text(normal),
    ensures
        theme_of(crate::lined::joined(ls.push(palette_line(8, bright)))).dim == normalised(bright),
        theme_of(crate::lined::joined(ls.push(palette_line(8, bright)).push(palette_line(0, normal)))).dim
            == normalised(bright),
        theme_of(crate::lined::joined(ls.push(palette_line(0, normal)).push(palette_line(8, bright)))).dim
            == normalised(bright),
        theme_of(crate::lined::joined(seq![palette_line(0, normal)])).dim == normalised(normal),
{
    lemma_two_palette_lines(ls, 8, bright, 0, normal);
    lemma_two_palette_lines(ls, 0, normal, 8, bright);
    lemma_two_palette_lines(Seq::empty(), 0, normal, 0, normal);
    lemma_reading_len(ls);
    lemma_reading_len(Seq::empty());
    let e = Seq::<Seq<char>>::empty();
    assert(e.push(palette_line(0, normal)) =~= seq![palette_line(0, normal)]);
    let pb = palette_line(8, bright);
    let pn = palette_line(0, normal);
    let r = read_lines(ls).2;
    assert(read_lines(lines(crate::lined::joined(ls.push(pb)))).2 == r.update(8, Some(normalised(bright))));
    assert(read_lines(lines(crate::lined::joined(ls.push(pb).push(pn)))).2 == r.update(8, Some(normalised(bright))).update(0, Some(normalised(normal))));
    assert(read_lines(lines(crate::lined::joined(ls.push(pn).push(pb)))).2 == r.update(0, Some(normalised(normal))).update(8, Some(normalised(bright))));
    assert(read_lines(lines(crate::lined::joined(seq![pn]))).2 == read_lines(e).2.update(0, Some(normalised(normal))));
}

/// A config line setting `key` to `value`: `key = value`.
pub open spec fn key_line(key: Seq<char>, value: Seq<char>) -> Seq<char> {
    key + " = "@ + value
}

/// What `key = value` sets, for a key with no `=` in it and no space around
/// it that does not start a comment.
#[verifier::spinoff_prover]
#[verifier::rlimit(40)]
proof fn lemma_key_setting(key: Seq<char>, value: Seq<char>)
    requires
        key.len() > 0,
        trim(key) == key,
        !key.contains('='),
        key[0] != '#',
        colour_text(value),
    ensures
        setting(key_line(key, value)) == Some((key, value)),
{
    reveal_strlit(" = ");
    let w = crate::text::ws();
    lemma_trimmed_ends(value);
    // The key's ends are not space, as it is its own trim.
    crate::text::lemma_lead_bounded(key, w);
    crate::text::lemma_trail_bounded(crate::text::trim_start(key), w);
    assert(crate::text::lead(key, w) == 0);
    assert(crate::text::trim_start(key) =~= key);
    assert(crate::text::trail(key, w) == 0);
    let line = key_line(key, value);
    assert(line[0] == key[0]);
    assert(line.last() == value.last());
    lemma_trim_keeps(line);
    let n = key.len() as int;
    assert forall|j: int| 0 <= j < n + 1 implies line[j] != '=' by {
        if j < n {
            assert(line[j] == key[j]);
        } else {
            assert(line[j] == ' ');
        }
    }
    assert(line[n + 1] == '=');
    lemma_first_eq(line, n + 1);
    let k = line.take(n + 1);
    let v = line.skip(n + 2);
    assert(k =~= key.push(' '));
    crate::text::lemma_lead_is(k, w, 0);
    assert(crate::text::trim_start(k) =~= k);
    crate::text::lemma_trail_is(k, w, n);
    assert(trim(k) =~= key);
    assert(v =~= seq![' '] + value);
    crate::text::lemma_lead_is(v, w, 1);
    assert(crate::text::trim_start(v) =~= value);
    lemma_trim_keeps(value);
    assert(trim(v) =~= value);
}

/// The last `background` and `foreground` lines of a config give the
/// theme's background and foreground.
pub proof fn lemma_background_foreground(ls: Seq<Seq<char>>, c: Seq<char>)
    requires
        forall|k: int| 0 <= k < ls.len() ==> crate::lined::plain_line(#[trigger] ls[k]),
        colour_text(c),
    ensures
        theme_of(crate::lined::joined(ls.push(key_line("background"@, c)))).background == normalised(c),
        theme_of(crate::lined::joined(ls.push(key_line("foreground"@, c)))).foreground == normalised(c),
{
    reveal_strlit("background");
    reveal_strlit("foreground");
    reveal_strlit(" = ");
    lemma_trimmed_ends(c);
    assert(!"background"@.contains('=') && !"foreground"@.contains('=')) by {
        assert forall|j: int| 0 <= j < 10 implies "background"@[j] != '=' && "foreground"@[j] != '=' by {}
    }
    lemma_trim_keeps("background"@);
    lemma_trim_keeps("foreground"@);
    lemma_key_setting("background"@, c);
    lemma_key_setting("foreground"@, c);
    assert("background"@ != "foreground"@) by {
        assert("background"@[0] != "foreground"@[0]);
    }
    let b = key_line("background"@, c);
    let f = key_line("foreground"@, c);
    assert forall|x: Seq<char>| x == b || x == f implies crate::lined::plain_line(x) by {
        if crate::text::has_char(x, '\n') {
            let k = choose|k: int| 0 <= k < x.len() && x[k] == '\n';
            if k >= 13 {
                assert(x[k] == c[k - 13]);
                assert(c.contains('\n'));
            } else if k < 10 {
                assert(x[k] == "background"@[k] || x[k] == "foreground"@[k]);
            } else {
                assert(x[k] == " = "@[k - 10]);
            }
        }
        assert(x.last() == c.last());
        assert(('\r' as u32) == 13);
    }
    let one = ls.push(b);
    let two = ls.push(f);
    assert forall|k: int| 0 <= k < one.len() implies crate::lined::plain_line(#[trigger] one[k]) by {
        if k < ls.len() {
            assert(one[k] == ls[k]);
        }
    }
    assert forall|k: int| 0 <= k < two.len() implies crate::lined::plain_line(#[trigger] two[k]) by {
        if k < ls.len() {
            assert(two[k] == ls[k]);
        }
    }
    crate::lined::lemma_lines_joined(one);
    crate::lined::lemma_lines_joined(two);
    assert(one.drop_last() =~= ls);
    assert(two.drop_last() =~= ls);
}

/// A colour read from the config always starts with `#`.
pub proof fn lemma_normalised_hash(value: Seq<char>)
    ensures
        normalised(value).len() > 0,
        normalised(value)[0] == '#',
{
}

} // verus!
