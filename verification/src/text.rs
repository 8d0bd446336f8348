//! Text as sequences of characters: the handful of `str` operations the rest
//! of the crate needs, each with the meaning it has in std written down.
use vstd::prelude::*;
use vstd::relations::*;

verus! {

// ---------------------------------------------------------------------------
// Moving between `String` and characters
// ---------------------------------------------------------------------------

/// The characters of a string, in order.
pub fn chars_of(s: &str) -> (out: Vec<char>)
    ensures
        out@ == s@,
{
    let mut out: Vec<char> = Vec::new();
    for c in it: s.chars()
        invariant
            out@ == it.seq().take(it.index() as int),
            it.seq() == s@,
    {
        out.push(c);
    }
    out
}

/// Appends one character to a string (`String::push`).
#[verifier::external_body]
fn push_char(s: &mut String, c: char)
    ensures
        final(s)@ == old(s)@.push(c),
{
    s.push(c);
}

/// A string holding exactly the given characters.
pub fn string_of(chars: &[char]) -> (out: String)
    ensures
        out@ == chars@,
{
    let mut out = String::new();
    let mut i: usize = 0;
    while i < chars.len()
        invariant
            i <= chars.len(),
            out@ == chars@.take(i as int),
        decreases chars.len() - i,
    {
        push_char(&mut out, chars[i]);
        assert(chars@.take(i as int).push(chars@[i as int]) == chars@.take(i + 1));
        i += 1;
    }
    assert(chars@.take(chars.len() as int) == chars@);
    out
}

/// A copy of a string.
pub fn copy_text(s: &String) -> (out: String)
    ensures
        out@ == s@,
{
    s.clone()
}

/// A string literal as an owned string.
pub fn owned(s: &str) -> (out: String)
    ensures
        out@ == s@,
{
    s.to_string()
}

/// Characters of the slice between two indices.
pub fn slice_of(s: &[char], from: usize, to: usize) -> (out: Vec<char>)
    requires
        from <= to <= s.len(),
    ensures
        out@ == s@.subrange(from as int, to as int),
{
    let mut out: Vec<char> = Vec::new();
    let mut i = from;
    while i < to
        invariant
            from <= i <= to <= s.len(),
            out@ == s@.subrange(from as int, i as int),
        decreases to - i,
    {
        out.push(s[i]);
        assert(s@.subrange(from as int, i as int).push(s@[i as int]) == s@.subrange(
            from as int,
            i + 1,
        ));
        i += 1;
    }
    out
}

/// The characters of one text followed by another.
pub fn concat_chars(a: &[char], b: &[char]) -> (out: Vec<char>)
    ensures
        out@ == a@ + b@,
{
    let mut out: Vec<char> = Vec::new();
    let mut i: usize = 0;
    while i < a.len()
        invariant
            i <= a.len(),
            out@ == a@.take(i as int),
        decreases a.len() - i,
    {
        out.push(a[i]);
        assert(a@.take(i as int).push(a@[i as int]) == a@.take(i + 1));
        i += 1;
    }
    let mut j: usize = 0;
    while j < b.len()
        invariant
            i == a.len(),
            j <= b.len(),
            out@ == a@ + b@.take(j as int),
        decreases b.len() - j,
    {
        out.push(b[j]);
        assert(b@.take(j as int).push(b@[j as int]) == b@.take(j + 1));
        assert(a@ + b@.take(j as int).push(b@[j as int]) == (a@ + b@.take(j as int)).push(
            b@[j as int],
        ));
        j += 1;
    }
    assert(a@.take(a.len() as int) == a@);
    assert(b@.take(b.len() as int) == b@);
    out
}

/// Appends the characters of `b` to `out`.
pub fn append_chars(out: &mut Vec<char>, b: &[char])
    ensures
        final(out)@ == old(out)@ + b@,
{
    let mut j: usize = 0;
    while j < b.len()
        invariant
            j <= b.len(),
            out@ == old(out)@ + b@.take(j as int),
        decreases b.len() - j,
    {
        out.push(b[j]);
        assert(b@.take(j as int).push(b@[j as int]) == b@.take(j + 1));
        assert(old(out)@ + b@.take(j as int).push(b@[j as int]) == (old(out)@ + b@.take(
            j as int,
        )).push(b@[j as int]));
        j += 1;
    }
    assert(b@.take(b.len() as int) == b@);
}

/// Whether two character slices hold the same text.
pub fn same_chars(a: &[char], b: &[char]) -> (r: bool)
    ensures
        r == (a@ == b@),
{
    if a.len() != b.len() {
        return false;
    }
    let mut i: usize = 0;
    while i < a.len()
        invariant
            a.len() == b.len(),
            i <= a.len(),
            forall|k: int| 0 <= k < i ==> a@[k] == b@[k],
        decreases a.len() - i,
    {
        if a[i] != b[i] {
            return false;
        }
        i += 1;
    }
    assert(a@ =~= b@);
    true
}

/// Whether two strings hold the same text.
pub fn same_text(a: &str, b: &str) -> (r: bool)
    ensures
        r == (a@ == b@),
{
    let x = chars_of(a);
    let y = chars_of(b);
    same_chars(x.as_slice(), y.as_slice())
}

// ---------------------------------------------------------------------------
// Character classes
// ---------------------------------------------------------------------------

/// Unicode `White_Space`, which is what `char::is_whitespace` and so
/// `str::trim` go by.
pub open spec fn is_ws(c: char) -> bool {
    let u = c as u32;
    (9 <= u <= 13) || u == 32 || u == 0x85 || u == 0xA0 || u == 0x1680 || (0x2000 <= u <= 0x200A)
        || u == 0x2028 || u == 0x2029 || u == 0x202F || u == 0x205F || u == 0x3000
}

pub fn is_whitespace(c: char) -> (r: bool)
    ensures
        r == is_ws(c),
{
    let u = c as u32;
    (9 <= u && u <= 13) || u == 32 || u == 0x85 || u == 0xA0 || u == 0x1680 || (0x2000 <= u && u
        <= 0x200A) || u == 0x2028 || u == 0x2029 || u == 0x202F || u == 0x205F || u == 0x3000
}

pub open spec fn is_digit(c: char) -> bool {
    '0' <= c <= '9'
}

pub open spec fn is_alnum(c: char) -> bool {
    ('0' <= c <= '9') || ('a' <= c <= 'z') || ('A' <= c <= 'Z')
}

// ---------------------------------------------------------------------------
// Trimming
// ---------------------------------------------------------------------------

/// How many leading characters satisfy `p`.
pub open spec fn lead(s: Seq<char>, p: spec_fn(char) -> bool) -> nat
    decreases s.len(),
{
    if s.len() > 0 && p(s[0]) {
        1 + lead(s.drop_first(), p)
    } else {
        0
    }
}

/// How many trailing characters satisfy `p`.
pub open spec fn trail(s: Seq<char>, p: spec_fn(char) -> bool) -> nat
    decreases s.len(),
{
    if s.len() > 0 && p(s.last()) {
        1 + trail(s.drop_last(), p)
    } else {
        0
    }
}

pub open spec fn trim_start_by(s: Seq<char>, p: spec_fn(char) -> bool) -> Seq<char> {
    s.skip(lead(s, p) as int)
}

pub open spec fn trim_end_by(s: Seq<char>, p: spec_fn(char) -> bool) -> Seq<char> {
    s.take(s.len() - trail(s, p))
}

pub open spec fn trim_by(s: Seq<char>, p: spec_fn(char) -> bool) -> Seq<char> {
    trim_end_by(trim_start_by(s, p), p)
}

pub open spec fn ws() -> spec_fn(char) -> bool {
    |c: char| is_ws(c)
}

pub open spec fn is_char(x: char) -> spec_fn(char) -> bool {
    |c: char| c == x
}

/// `str::trim_start`.
pub open spec fn trim_start(s: Seq<char>) -> Seq<char> {
    trim_start_by(s, ws())
}

/// `str::trim_end`.
pub open spec fn trim_end(s: Seq<char>) -> Seq<char> {
    trim_end_by(s, ws())
}

/// `str::trim`.
pub open spec fn trim(s: Seq<char>) -> Seq<char> {
    trim_by(s, ws())
}

pub proof fn lemma_lead_bounded(s: Seq<char>, p: spec_fn(char) -> bool)
    ensures
        lead(s, p) <= s.len(),
        forall|k: int| 0 <= k < lead(s, p) ==> p(#[trigger] s[k]),
        lead(s, p) < s.len() ==> !p(s[lead(s, p) as int]),
    decreases s.len(),
{
    if s.len() > 0 && p(s[0]) {
        lemma_lead_bounded(s.drop_first(), p);
        assert forall|k: int| 0 <= k < lead(s, p) implies p(#[trigger] s[k]) by {
            if k > 0 {
                assert(s[k] == s.drop_first()[k - 1]);
            }
        }
    }
}

pub proof fn lemma_lead_is(s: Seq<char>, p: spec_fn(char) -> bool, i: int)
    requires
        0 <= i <= s.len(),
        forall|k: int| 0 <= k < i ==> p(#[trigger] s[k]),
        i < s.len() ==> !p(s[i]),
    ensures
        lead(s, p) == i,
    decreases s.len(),
{
    if i > 0 {
        assert(p(s[0]));
        assert forall|k: int| 0 <= k < i - 1 implies p(#[trigger] s.drop_first()[k]) by {
            assert(s.drop_first()[k] == s[k + 1]);
        }
        lemma_lead_is(s.drop_first(), p, i - 1);
    }
}

pub proof fn lemma_trail_bounded(s: Seq<char>, p: spec_fn(char) -> bool)
    ensures
        trail(s, p) <= s.len(),
        forall|k: int| s.len() - trail(s, p) <= k < s.len() ==> p(#[trigger] s[k]),
        trail(s, p) < s.len() ==> !p(s[s.len() - trail(s, p) - 1]),
    decreases s.len(),
{
    if s.len() > 0 && p(s.last()) {
        lemma_trail_bounded(s.drop_last(), p);
        assert forall|k: int| s.len() - trail(s, p) <= k < s.len() implies p(#[trigger] s[k]) by {
            if k < s.len() - 1 {
                assert(s[k] == s.drop_last()[k]);
            }
        }
        if trail(s, p) < s.len() {
            assert(s[s.len() - trail(s, p) - 1] == s.drop_last()[s.drop_last().len() - trail(
                s.drop_last(),
                p,
            ) - 1]);
        }
    }
}

pub proof fn lemma_trail_is(s: Seq<char>, p: spec_fn(char) -> bool, j: int)
    requires
        0 <= j <= s.len(),
        forall|k: int| j <= k < s.len() ==> p(#[trigger] s[k]),
        j > 0 ==> !p(s[j - 1]),
    ensures
        trail(s, p) == s.len() - j,
    decreases s.len(),
{
    if j < s.len() {
        assert(p(s[s.len() - 1]));
        assert forall|k: int| j <= k < s.drop_last().len() implies p(#[trigger] s.drop_last()[k]) by {
            assert(s.drop_last()[k] == s[k]);
        }
        if j > 0 {
            assert(s.drop_last()[j - 1] == s[j - 1]);
        }
        lemma_trail_is(s.drop_last(), p, j);
    }
}

/// Where the text left by `str::trim` starts and ends.
pub fn trim_bounds(s: &[char]) -> (r: (usize, usize))
    ensures
        r.0 <= r.1 <= s.len(),
        s@.subrange(r.0 as int, r.1 as int) == trim(s@),
        r.0 == lead(s@, ws()),
{
    let mut a: usize = 0;
    while a < s.len() && is_whitespace(s[a])
        invariant
            a <= s.len(),
            forall|k: int| 0 <= k < a ==> is_ws(#[trigger] s@[k]),
        decreases s.len() - a,
    {
        a += 1;
    }
    proof {
        lemma_lead_is(s@, ws(), a as int);
    }
    let mut b: usize = s.len();
    while b > a && is_whitespace(s[b - 1])
        invariant
            a <= b <= s.len(),
            forall|k: int| b <= k < s.len() ==> is_ws(#[trigger] s@[k]),
        decreases b,
    {
        b -= 1;
    }
    proof {
        let t = s@.skip(a as int);
        assert forall|k: int| b - a <= k < t.len() implies (ws())(#[trigger] t[k]) by {
            assert(t[k] == s@[k + a]);
        }
        if b > a {
            assert(t[b - a - 1] == s@[b - 1]);
        }
        lemma_trail_is(t, ws(), b - a);
        assert(t.take(t.len() - trail(t, ws())) =~= s@.subrange(a as int, b as int));
    }
    (a, b)
}

/// `str::trim`.
pub fn trim_chars(s: &[char]) -> (out: Vec<char>)
    ensures
        out@ == trim(s@),
{
    let (a, b) = trim_bounds(s);
    slice_of(s, a, b)
}

/// `str::trim_start`.
pub fn trim_start_chars(s: &[char]) -> (out: Vec<char>)
    ensures
        out@ == trim_start(s@),
{
    let mut a: usize = 0;
    while a < s.len() && is_whitespace(s[a])
        invariant
            a <= s.len(),
            forall|k: int| 0 <= k < a ==> is_ws(#[trigger] s@[k]),
        decreases s.len() - a,
    {
        a += 1;
    }
    proof {
        lemma_lead_is(s@, ws(), a as int);
    }
    slice_of(s, a, s.len())
}

/// `str::trim_end`.
pub fn trim_end_chars(s: &[char]) -> (out: Vec<char>)
    ensures
        out@ == trim_end(s@),
{
    let mut b: usize = s.len();
    while b > 0 && is_whitespace(s[b - 1])
        invariant
            b <= s.len(),
            forall|k: int| b <= k < s.len() ==> is_ws(#[trigger] s@[k]),
        decreases b,
    {
        b -= 1;
    }
    proof {
        lemma_trail_is(s@, ws(), b as int);
    }
    slice_of(s, 0, b)
}

/// `str::trim_matches` with a single character.
pub fn trim_char(s: &[char], x: char) -> (out: Vec<char>)
    ensures
        out@ == trim_by(s@, is_char(x)),
{
    let mut a: usize = 0;
    while a < s.len() && s[a] == x
        invariant
            a <= s.len(),
            forall|k: int| 0 <= k < a ==> #[trigger] s@[k] == x,
        decreases s.len() - a,
    {
        a += 1;
    }
    proof {
        lemma_lead_is(s@, is_char(x), a as int);
    }
    let mut b: usize = s.len();
    while b > a && s[b - 1] == x
        invariant
            a <= b <= s.len(),
            forall|k: int| b <= k < s.len() ==> #[trigger] s@[k] == x,
        decreases b,
    {
        b -= 1;
    }
    proof {
        let t = s@.skip(a as int);
        assert forall|k: int| b - a <= k < t.len() implies (is_char(x))(#[trigger] t[k]) by {
            assert(t[k] == s@[k + a]);
        }
        if b > a {
            assert(t[b - a - 1] == s@[b - 1]);
        }
        lemma_trail_is(t, is_char(x), b - a);
        assert(t.take(t.len() - trail(t, is_char(x))) =~= s@.subrange(a as int, b as int));
    }
    slice_of(s, a, b)
}

// ---------------------------------------------------------------------------
// Prefixes, suffixes and searching
// ---------------------------------------------------------------------------

pub open spec fn starts_with(s: Seq<char>, p: Seq<char>) -> bool {
    p.len() <= s.len() && s.take(p.len() as int) == p
}

pub open spec fn ends_with(s: Seq<char>, p: Seq<char>) -> bool {
    p.len() <= s.len() && s.skip(s.len() - p.len()) == p
}

/// Does `p` occur in `s` starting at `i`?
pub open spec fn occurs_at(s: Seq<char>, p: Seq<char>, i: int) -> bool {
    0 <= i && i + p.len() <= s.len() && s.subrange(i, i + p.len()) == p
}

/// The first place at or after `i` where `p` occurs.
pub open spec fn find_from(s: Seq<char>, p: Seq<char>, i: int) -> Option<int>
    decreases s.len() + 1 - i,
{
    if i < 0 || i + p.len() > s.len() {
        None
    } else if occurs_at(s, p, i) {
        Some(i)
    } else {
        find_from(s, p, i + 1)
    }
}

/// `str::find`: the first place `p` occurs.
pub open spec fn find(s: Seq<char>, p: Seq<char>) -> Option<int> {
    find_from(s, p, 0)
}

/// The last place at or before `i` where `p` occurs.
pub open spec fn rfind_upto(s: Seq<char>, p: Seq<char>, i: int) -> Option<int>
    decreases i + 1,
{
    if i < 0 {
        None
    } else if occurs_at(s, p, i) {
        Some(i)
    } else {
        rfind_upto(s, p, i - 1)
    }
}

/// `str::rfind`: the last place `p` occurs.
pub open spec fn rfind(s: Seq<char>, p: Seq<char>) -> Option<int> {
    rfind_upto(s, p, s.len() - p.len())
}

pub proof fn lemma_find_from(s: Seq<char>, p: Seq<char>, i: int)
    requires
        0 <= i,
    ensures
        match find_from(s, p, i) {
            Some(k) => i <= k && occurs_at(s, p, k) && forall|j: int|
                i <= j < k ==> !#[trigger] occurs_at(s, p, j),
            None => forall|j: int| i <= j ==> !#[trigger] occurs_at(s, p, j),
        },
    decreases s.len() + 1 - i,
{
    if i + p.len() > s.len() {
    } else if occurs_at(s, p, i) {
    } else {
        lemma_find_from(s, p, i + 1);
    }
}

pub proof fn lemma_rfind_upto(s: Seq<char>, p: Seq<char>, i: int)
    ensures
        match rfind_upto(s, p, i) {
            Some(k) => 0 <= k <= i && occurs_at(s, p, k) && forall|j: int|
                k < j <= i ==> !#[trigger] occurs_at(s, p, j),
            None => forall|j: int| j <= i ==> !#[trigger] occurs_at(s, p, j),
        },
    decreases i + 1,
{
    if i < 0 {
    } else if occurs_at(s, p, i) {
    } else {
        lemma_rfind_upto(s, p, i - 1);
    }
}

/// The first occurrence of `p` at or after `i`, if any.
pub proof fn lemma_find_unique(s: Seq<char>, p: Seq<char>, i: int, k: int)
    requires
        0 <= i <= k,
        occurs_at(s, p, k),
        forall|j: int| i <= j < k ==> !#[trigger] occurs_at(s, p, j),
    ensures
        find_from(s, p, i) == Some(k),
    decreases k - i,
{
    if i < k {
        assert(!occurs_at(s, p, i));
        lemma_find_unique(s, p, i + 1, k);
    }
}

pub proof fn lemma_find_none(s: Seq<char>, p: Seq<char>, i: int)
    requires
        0 <= i,
        forall|j: int| i <= j ==> !#[trigger] occurs_at(s, p, j),
    ensures
        find_from(s, p, i) is None,
    decreases s.len() + 1 - i,
{
    if i + p.len() > s.len() {
    } else {
        assert(!occurs_at(s, p, i));
        lemma_find_none(s, p, i + 1);
    }
}

/// Does `p` occur in `s` at `i`? (Executable.)
pub fn occurs_at_exec(s: &[char], p: &[char], i: usize) -> (r: bool)
    ensures
        r == occurs_at(s@, p@, i as int),
{
    if p.len() > s.len() || i > s.len() - p.len() {
        return false;
    }
    let mut k: usize = 0;
    while k < p.len()
        invariant
            i + p.len() <= s.len(),
            k <= p.len(),
            forall|j: int| 0 <= j < k ==> s@[i + j] == p@[j],
        decreases p.len() - k,
    {
        if s[i + k] != p[k] {
            assert(s@.subrange(i as int, i + p.len())[k as int] != p@[k as int]);
            return false;
        }
        k += 1;
    }
    assert(s@.subrange(i as int, i + p.len()) =~= p@);
    true
}

/// `str::find`.
pub fn find_chars(s: &[char], p: &[char]) -> (r: Option<usize>)
    ensures
        match r {
            Some(k) => find(s@, p@) == Some(k as int),
            None => find(s@, p@) is None,
        },
{
    let mut i: usize = 0;
    loop
        invariant
            i <= s.len(),
            forall|j: int| 0 <= j < i ==> !#[trigger] occurs_at(s@, p@, j),
        decreases s.len() - i,
    {
        if occurs_at_exec(s, p, i) {
            proof {
                lemma_find_unique(s@, p@, 0, i as int);
            }
            return Some(i);
        }
        if i == s.len() {
            proof {
                lemma_find_none(s@, p@, 0);
            }
            return None;
        }
        i += 1;
    }
}

pub proof fn lemma_rfind_unique(s: Seq<char>, p: Seq<char>, i: int, k: int)
    requires
        0 <= k <= i,
        occurs_at(s, p, k),
        forall|j: int| k < j <= i ==> !#[trigger] occurs_at(s, p, j),
    ensures
        rfind_upto(s, p, i) == Some(k),
    decreases i - k,
{
    if k < i {
        assert(!occurs_at(s, p, i));
        lemma_rfind_unique(s, p, i - 1, k);
    }
}

pub proof fn lemma_rfind_none(s: Seq<char>, p: Seq<char>, i: int)
    requires
        forall|j: int| j <= i ==> !#[trigger] occurs_at(s, p, j),
    ensures
        rfind_upto(s, p, i) is None,
    decreases i + 1,
{
    if i >= 0 {
        assert(!occurs_at(s, p, i));
        lemma_rfind_none(s, p, i - 1);
    }
}

/// `str::rfind`.
pub fn rfind_chars(s: &[char], p: &[char]) -> (r: Option<usize>)
    ensures
        match r {
            Some(k) => rfind(s@, p@) == Some(k as int),
            None => rfind(s@, p@) is None,
        },
{
    if p.len() > s.len() {
        proof {
            lemma_rfind_none(s@, p@, s@.len() - p@.len());
        }
        return None;
    }
    let top: usize = s.len() - p.len();
    let mut i: usize = top;
    loop
        invariant
            i <= top,
            top == s.len() - p.len(),
            forall|j: int| i < j <= top ==> !#[trigger] occurs_at(s@, p@, j),
        decreases i,
    {
        if occurs_at_exec(s, p, i) {
            proof {
                lemma_rfind_unique(s@, p@, top as int, i as int);
            }
            return Some(i);
        }
        if i == 0 {
            proof {
                lemma_rfind_none(s@, p@, top as int);
            }
            return None;
        }
        i -= 1;
    }
}

/// `str::starts_with`.
pub fn starts_with_chars(s: &[char], p: &[char]) -> (r: bool)
    ensures
        r == starts_with(s@, p@),
{
    let r = occurs_at_exec(s, p, 0);
    proof {
        if r {
            assert(s@.take(p@.len() as int) == s@.subrange(0, p@.len() as int));
        }
        if starts_with(s@, p@) {
            assert(s@.take(p@.len() as int) == s@.subrange(0, p@.len() as int));
        }
    }
    r
}

/// The first index holding `c`.
pub open spec fn index_of_char(s: Seq<char>, c: char) -> Option<int> {
    find(s, seq![c])
}

pub proof fn lemma_occurs_single(s: Seq<char>, c: char, i: int)
    ensures
        occurs_at(s, seq![c], i) <==> (0 <= i < s.len() && s[i] == c),
{
    if 0 <= i < s.len() && s[i] == c {
        assert(s.subrange(i, i + 1) =~= seq![c]);
    }
    if occurs_at(s, seq![c], i) {
        assert(s.subrange(i, i + 1)[0] == s[i]);
    }
}

/// `str::contains` with a single character.
pub open spec fn has_char(s: Seq<char>, c: char) -> bool {
    s.contains(c)
}

pub fn has_char_exec(s: &[char], c: char) -> (r: bool)
    ensures
        r == s@.contains(c),
{
    let mut i: usize = 0;
    while i < s.len()
        invariant
            i <= s.len(),
            forall|k: int| 0 <= k < i ==> s@[k] != c,
        decreases s.len() - i,
    {
        if s[i] == c {
            return true;
        }
        i += 1;
    }
    false
}

/// The first index holding `c`, if any.
pub fn index_of_char_exec(s: &[char], c: char) -> (r: Option<usize>)
    ensures
        match r {
            Some(k) => k < s.len() && s@[k as int] == c && forall|j: int|
                0 <= j < k ==> s@[j] != c,
            None => !s@.contains(c),
        },
        r matches Some(k) ==> index_of_char(s@, c) == Some(k as int),
        r is None ==> index_of_char(s@, c) is None,
{
    let mut i: usize = 0;
    while i < s.len()
        invariant
            i <= s.len(),
            forall|k: int| 0 <= k < i ==> s@[k] != c,
        decreases s.len() - i,
    {
        if s[i] == c {
            proof {
                assert forall|j: int| 0 <= j < i implies !#[trigger] occurs_at(s@, seq![c], j) by {
                    lemma_occurs_single(s@, c, j);
                }
                lemma_occurs_single(s@, c, i as int);
                lemma_find_unique(s@, seq![c], 0, i as int);
            }
            return Some(i);
        }
        i += 1;
    }
    proof {
        assert forall|j: int| 0 <= j implies !#[trigger] occurs_at(s@, seq![c], j) by {
            lemma_occurs_single(s@, c, j);
        }
        lemma_find_none(s@, seq![c], 0);
    }
    None
}

// ---------------------------------------------------------------------------
// Order
// ---------------------------------------------------------------------------

/// The order of `str`'s `Ord`: byte-wise on UTF-8, which is the same as
/// comparing code points one by one.
pub open spec fn text_lt(a: Seq<char>, b: Seq<char>) -> bool
    decreases a.len(),
{
    if a.len() == 0 {
        b.len() > 0
    } else if b.len() == 0 {
        false
    } else if a[0] != b[0] {
        a[0] < b[0]
    } else {
        text_lt(a.drop_first(), b.drop_first())
    }
}

pub open spec fn text_le(a: Seq<char>, b: Seq<char>) -> bool {
    a == b || text_lt(a, b)
}

pub open spec fn text_leq() -> spec_fn(Seq<char>, Seq<char>) -> bool {
    |a: Seq<char>, b: Seq<char>| text_le(a, b)
}

pub proof fn lemma_text_lt_irreflexive(a: Seq<char>)
    ensures
        !text_lt(a, a),
    decreases a.len(),
{
    if a.len() > 0 {
        lemma_text_lt_irreflexive(a.drop_first());
    }
}

pub proof fn lemma_text_lt_asym(a: Seq<char>, b: Seq<char>)
    ensures
        !(text_lt(a, b) && text_lt(b, a)),
    decreases a.len(),
{
    if a.len() > 0 && b.len() > 0 && a[0] == b[0] {
        lemma_text_lt_asym(a.drop_first(), b.drop_first());
    }
}

pub proof fn lemma_text_lt_trans(a: Seq<char>, b: Seq<char>, c: Seq<char>)
    requires
        text_lt(a, b),
        text_lt(b, c),
    ensures
        text_lt(a, c),
    decreases a.len(),
{
    if a.len() > 0 && b.len() > 0 && c.len() > 0 && a[0] == b[0] && b[0] == c[0] {
        lemma_text_lt_trans(a.drop_first(), b.drop_first(), c.drop_first());
    }
}

pub proof fn lemma_text_lt_total(a: Seq<char>, b: Seq<char>)
    ensures
        a == b || text_lt(a, b) || text_lt(b, a),
    decreases a.len(),
{
    if a.len() > 0 && b.len() > 0 && a[0] == b[0] {
        lemma_text_lt_total(a.drop_first(), b.drop_first());
        if a.drop_first() == b.drop_first() {
            assert(a =~= seq![a[0]] + a.drop_first());
            assert(b =~= seq![b[0]] + b.drop_first());
            assert(a =~= b);
        }
    } else if a.len() == 0 && b.len() == 0 {
        assert(a =~= b);
    } else if a.len() > 0 && b.len() > 0 {
    }
}

pub proof fn lemma_text_order()
    ensures
        total_ordering(text_leq()),
{
    assert forall|a: Seq<char>| #[trigger] (text_leq())(a, a) by {}
    assert forall|a: Seq<char>, b: Seq<char>|
        #[trigger] (text_leq())(a, b) && #[trigger] (text_leq())(b, a) implies a == b by {
        lemma_text_lt_asym(a, b);
    }
    assert forall|a: Seq<char>, b: Seq<char>, c: Seq<char>|
        #[trigger] (text_leq())(a, b) && #[trigger] (text_leq())(b, c) implies (text_leq())(
        a,
        c,
    ) by {
        if a != b && b != c {
            lemma_text_lt_trans(a, b, c);
        }
    }
    assert forall|a: Seq<char>, b: Seq<char>|
        #[trigger] (text_leq())(a, b) || #[trigger] (text_leq())(b, a) by {
        lemma_text_lt_total(a, b);
    }
}

/// `a < b` on strings.
pub fn less_chars(a: &[char], b: &[char]) -> (r: bool)
    ensures
        r == text_lt(a@, b@),
{
    let mut i: usize = 0;
    assert(a@.skip(0) =~= a@);
    assert(b@.skip(0) =~= b@);
    while i < a.len() && i < b.len()
        invariant
            i <= a.len(),
            i <= b.len(),
            a@.take(i as int) == b@.take(i as int),
            text_lt(a@, b@) == text_lt(a@.skip(i as int), b@.skip(i as int)),
        decreases a.len() - i,
    {
        if a[i] != b[i] {
            assert(a@.skip(i as int)[0] == a@[i as int]);
            assert(b@.skip(i as int)[0] == b@[i as int]);
            let r = a[i] < b[i];
            return r;
        }
        proof {
            assert(a@.skip(i as int).drop_first() =~= a@.skip(i + 1));
            assert(b@.skip(i as int).drop_first() =~= b@.skip(i + 1));
            assert(a@.take(i + 1) =~= a@.take(i as int).push(a@[i as int]));
            assert(b@.take(i + 1) =~= b@.take(i as int).push(b@[i as int]));
        }
        i += 1;
    }
    i == a.len() && i < b.len()
}

/// `a < b` on strings.
pub fn less_text(a: &str, b: &str) -> (r: bool)
    ensures
        r == text_lt(a@, b@),
{
    let x = chars_of(a);
    let y = chars_of(b);
    less_chars(x.as_slice(), y.as_slice())
}

} // verus!

verus! {

// ---------------------------------------------------------------------------
// Splitting
// ---------------------------------------------------------------------------

/// `str::split_once` with a single character: the text before and after its
/// first occurrence.
pub open spec fn split_once_char(s: Seq<char>, c: char) -> Option<(Seq<char>, Seq<char>)> {
    match index_of_char(s, c) {
        Some(i) => Some((s.take(i), s.skip(i + 1))),
        None => None,
    }
}

pub fn split_once_char_exec(s: &[char], c: char) -> (r: Option<(Vec<char>, Vec<char>)>)
    ensures
        match r {
            Some((a, b)) => split_once_char(s@, c) == Some((a@, b@)),
            None => split_once_char(s@, c) is None,
        },
{
    match index_of_char_exec(s, c) {
        Some(i) => Some((slice_of(s, 0, i), slice_of(s, i + 1, s.len()))),
        None => None,
    }
}

/// `str::rsplit_once` with a text pattern: the text before and after the
/// last occurrence of `p`.
pub open spec fn rsplit_once(s: Seq<char>, p: Seq<char>) -> Option<(Seq<char>, Seq<char>)> {
    match rfind(s, p) {
        Some(k) => Some((s.take(k), s.skip(k + p.len()))),
        None => None,
    }
}

pub fn rsplit_once_exec(s: &[char], p: &[char]) -> (r: Option<(Vec<char>, Vec<char>)>)
    ensures
        match r {
            Some((a, b)) => rsplit_once(s@, p@) == Some((a@, b@)),
            None => rsplit_once(s@, p@) is None,
        },
{
    match rfind_chars(s, p) {
        Some(k) => {
            proof {
                lemma_rfind_upto(s@, p@, s@.len() - p@.len());
                assert(occurs_at(s@, p@, k as int));
                assert(k + p@.len() <= s@.len());
            }
            let total = s.len();
            let end = k + p.len();
            Some((slice_of(s, 0, k), slice_of(s, end, s.len())))
        },
        None => None,
    }
}

/// `str::strip_prefix`.
pub open spec fn strip_prefix(s: Seq<char>, p: Seq<char>) -> Option<Seq<char>> {
    if starts_with(s, p) {
        Some(s.skip(p.len() as int))
    } else {
        None
    }
}

pub fn strip_prefix_exec(s: &[char], p: &[char]) -> (r: Option<Vec<char>>)
    ensures
        match r {
            Some(a) => strip_prefix(s@, p@) == Some(a@),
            None => strip_prefix(s@, p@) is None,
        },
{
    if starts_with_chars(s, p) {
        Some(slice_of(s, p.len(), s.len()))
    } else {
        None
    }
}

/// `str::splitn` on a character: at most `n` pieces, the last keeping
/// whatever remains.
pub open spec fn splitn(s: Seq<char>, n: nat, c: char) -> Seq<Seq<char>>
    decreases n,
{
    if n == 0 {
        seq![]
    } else if n == 1 {
        seq![s]
    } else {
        match index_of_char(s, c) {
            Some(i) => seq![s.take(i)] + splitn(s.skip(i + 1), (n - 1) as nat, c),
            None => seq![s],
        }
    }
}

/// Splitting at a separator that the first field does not hold gives that
/// field, then the rest split one fewer time.
pub proof fn lemma_splitn_at(a: Seq<char>, rest: Seq<char>, n: nat, c: char)
    requires
        n >= 2,
        !a.contains(c),
    ensures
        splitn(a + seq![c] + rest, n, c) == seq![a] + splitn(rest, (n - 1) as nat, c),
{
    let s = a + seq![c] + rest;
    assert forall|j: int| 0 <= j < a.len() implies !#[trigger] occurs_at(s, seq![c], j) by {
        lemma_occurs_single(s, c, j);
        assert(s[j] == a[j]);
    }
    lemma_occurs_single(s, c, a.len() as int);
    lemma_find_unique(s, seq![c], 0, a.len() as int);
    assert(s.take(a.len() as int) =~= a);
    assert(s.skip(a.len() as int + 1) =~= rest);
}

pub fn splitn_exec(s: &[char], n: usize, c: char) -> (r: Vec<Vec<char>>)
    ensures
        r@.len() == splitn(s@, n as nat, c).len(),
        forall|k: int| 0 <= k < r@.len() ==> #[trigger] r@[k]@ == splitn(s@, n as nat, c)[k],
{
    let mut out: Vec<Vec<char>> = Vec::new();
    let mut rest: Vec<char> = slice_of(s, 0, s.len());
    let mut left: usize = n;
    assert(s@.subrange(0, s@.len() as int) =~= s@);
    loop
        invariant
            left <= n,
            out@.len() + splitn(rest@, left as nat, c).len() == splitn(s@, n as nat, c).len(),
            forall|k: int| 0 <= k < out@.len() ==> #[trigger] out@[k]@ == splitn(s@, n as nat, c)[k],
            forall|k: int|
                0 <= k < splitn(rest@, left as nat, c).len() ==> #[trigger] splitn(
                    rest@,
                    left as nat,
                    c,
                )[k] == splitn(s@, n as nat, c)[out@.len() + k],
        decreases left,
    {
        if left == 0 {
            return out;
        }
        if left == 1 {
            proof {
                assert(splitn(rest@, 1, c)[0] == rest@);
            }
            out.push(rest);
            return out;
        }
        match index_of_char_exec(rest.as_slice(), c) {
            Some(i) => {
                let head = slice_of(rest.as_slice(), 0, i);
                let tail = slice_of(rest.as_slice(), i + 1, rest.len());
                proof {
                    let whole = splitn(rest@, left as nat, c);
                    assert(whole == seq![rest@.take(i as int)] + splitn(
                        tail@,
                        (left - 1) as nat,
                        c,
                    ));
                    assert(whole[0] == head@);
                    assert forall|k: int|
                        0 <= k < splitn(tail@, (left - 1) as nat, c).len() implies #[trigger] splitn(
                        tail@,
                        (left - 1) as nat,
                        c,
                    )[k] == splitn(s@, n as nat, c)[out@.len() + 1 + k] by {
                        assert(whole[k + 1] == splitn(tail@, (left - 1) as nat, c)[k]);
                    }
                }
                out.push(head);
                rest = tail;
                left = left - 1;
            },
            None => {
                proof {
                    assert(splitn(rest@, left as nat, c)[0] == rest@);
                }
                out.push(rest);
                return out;
            },
        }
    }
}

// ---------------------------------------------------------------------------
// Lines
// ---------------------------------------------------------------------------

/// `str::split` on a character: every piece, empty ones included.
pub open spec fn split_char(s: Seq<char>, c: char) -> Seq<Seq<char>>
    decreases s.len(),
{
    if s.len() == 0 {
        seq![Seq::<char>::empty()]
    } else {
        let rest = split_char(s.drop_last(), c);
        if s.last() == c {
            rest.push(Seq::<char>::empty())
        } else {
            rest.update(rest.len() - 1, rest.last().push(s.last()))
        }
    }
}

pub proof fn lemma_split_char_nonempty(s: Seq<char>, c: char)
    ensures
        split_char(s, c).len() >= 1,
    decreases s.len(),
{
    if s.len() > 0 {
        lemma_split_char_nonempty(s.drop_last(), c);
    }
}

/// One line of `str::lines`: a line that was ended by `\n` loses a `\r`
/// before it; the unterminated last line is kept as it is.
pub open spec fn line_at(pieces: Seq<Seq<char>>, k: int) -> Seq<char> {
    if k < pieces.len() - 1 && pieces[k].len() > 0 && pieces[k].last() == '\r' {
        pieces[k].drop_last()
    } else {
        pieces[k]
    }
}

/// `str::lines`.
pub open spec fn lines(s: Seq<char>) -> Seq<Seq<char>> {
    let pieces = split_char(s, '\n');
    let n = if pieces.last().len() == 0 {
        pieces.len() - 1
    } else {
        pieces.len() as int
    };
    Seq::new(n as nat, |k: int| line_at(pieces, k))
}

pub fn split_char_exec(s: &[char], c: char) -> (r: Vec<Vec<char>>)
    ensures
        r@.len() == split_char(s@, c).len(),
        forall|k: int| 0 <= k < r@.len() ==> #[trigger] r@[k]@ == split_char(s@, c)[k],
{
    let mut out: Vec<Vec<char>> = Vec::new();
    let mut cur: Vec<char> = Vec::new();
    let mut i: usize = 0;
    while i < s.len()
        invariant
            i <= s.len(),
            out@.len() + 1 == split_char(s@.take(i as int), c).len(),
            forall|k: int| 0 <= k < out@.len() ==> #[trigger] out@[k]@ == split_char(
                s@.take(i as int),
                c,
            )[k],
            cur@ == split_char(s@.take(i as int), c).last(),
        decreases s.len() - i,
    {
        proof {
            assert(s@.take(i + 1).drop_last() =~= s@.take(i as int));
            lemma_split_char_nonempty(s@.take(i as int), c);
        }
        if s[i] == c {
            let done = cur;
            out.push(done);
            cur = Vec::new();
        } else {
            cur.push(s[i]);
        }
        i += 1;
    }
    assert(s@.take(s.len() as int) =~= s@);
    out.push(cur);
    out
}

/// `str::lines`, each line as characters.
pub fn lines_exec(s: &[char]) -> (r: Vec<Vec<char>>)
    ensures
        r@.len() == lines(s@).len(),
        forall|k: int| 0 <= k < r@.len() ==> #[trigger] r@[k]@ == lines(s@)[k],
{
    let pieces = split_char_exec(s, '\n');
    proof {
        lemma_split_char_nonempty(s@, '\n');
    }
    let total = pieces.len();
    let n = if pieces[total - 1].len() == 0 {
        total - 1
    } else {
        total
    };
    let mut out: Vec<Vec<char>> = Vec::new();
    let mut k: usize = 0;
    while k < n
        invariant
            n <= total,
            total == pieces@.len(),
            total == split_char(s@, '\n').len(),
            n == lines(s@).len(),
            forall|j: int| 0 <= j < total ==> #[trigger] pieces@[j]@ == split_char(s@, '\n')[j],
            k <= n,
            out@.len() == k,
            forall|j: int| 0 <= j < k ==> #[trigger] out@[j]@ == lines(s@)[j],
        decreases n - k,
    {
        let piece = &pieces[k];
        let line = if k + 1 < total && piece.len() > 0 && piece[piece.len() - 1] == '\r' {
            slice_of(piece.as_slice(), 0, piece.len() - 1)
        } else {
            slice_of(piece.as_slice(), 0, piece.len())
        };
        proof {
            assert(piece@.subrange(0, piece@.len() as int) =~= piece@);
        }
        out.push(line);
        k += 1;
    }
    out
}

// ---------------------------------------------------------------------------
// Numbers
// ---------------------------------------------------------------------------

pub open spec fn digit(d: nat) -> char {
    seq!['0', '1', '2', '3', '4', '5', '6', '7', '8', '9'][d as int]
}

/// A number written in decimal, as `{}` formats it.
pub open spec fn decimal(n: nat) -> Seq<char>
    decreases n,
{
    if n < 10 {
        seq![digit(n)]
    } else {
        decimal(n / 10).push(digit(n % 10))
    }
}

proof fn lemma_digit(d: nat)
    requires
        d < 10,
    ensures
        is_digit(digit(d)),
        digit(d) as u32 - '0' as u32 == d,
{
    let t = seq!['0', '1', '2', '3', '4', '5', '6', '7', '8', '9'];
    assert(digit(d) == t[d as int]);
    if d == 0 {
        assert(t[0] == '0');
    } else if d == 1 {
        assert(t[1] == '1');
    } else if d == 2 {
        assert(t[2] == '2');
    } else if d == 3 {
        assert(t[3] == '3');
    } else if d == 4 {
        assert(t[4] == '4');
    } else if d == 5 {
        assert(t[5] == '5');
    } else if d == 6 {
        assert(t[6] == '6');
    } else if d == 7 {
        assert(t[7] == '7');
    } else if d == 8 {
        assert(t[8] == '8');
    } else {
        assert(t[9] == '9');
    }
}

/// A number written in decimal reads back as that number.
pub proof fn lemma_decimal_reads_back(n: nat)
    ensures
        decimal(n).len() >= 1,
        all_digits(decimal(n)),
        digits_value(decimal(n)) == n,
    decreases n,
{
    lemma_digit(n % 10);
    if n < 10 {
        let s = decimal(n);
        assert(s.drop_last() =~= Seq::<char>::empty());
        assert(digits_value(s.drop_last()) == 0);
        assert(n % 10 == n);
        assert(digits_value(s) == digits_value(s.drop_last()) * 10 + (s.last() as u32 - '0' as u32) as nat);
    } else {
        lemma_decimal_reads_back(n / 10);
        let s = decimal(n);
        assert(s.drop_last() =~= decimal(n / 10));
        assert(s.last() == digit(n % 10));
        assert forall|k: int| 0 <= k < s.len() implies is_digit(#[trigger] s[k]) by {
            if k < s.len() - 1 {
                assert(s[k] == decimal(n / 10)[k]);
            }
        }
        assert(digits_value(s) == digits_value(s.drop_last()) * 10 + (s.last() as u32 - '0' as u32) as nat);
        assert(n == (n / 10) * 10 + n % 10);
    }
}

fn digit_exec(d: usize) -> (c: char)
    requires
        d < 10,
    ensures
        c == digit(d as nat),
{
    let table = ['0', '1', '2', '3', '4', '5', '6', '7', '8', '9'];
    assert(table@ =~= seq!['0', '1', '2', '3', '4', '5', '6', '7', '8', '9']);
    table[d]
}

/// `n.to_string()`, as characters.
pub fn decimal_chars(n: usize) -> (out: Vec<char>)
    ensures
        out@ == decimal(n as nat),
    decreases n,
{
    if n < 10 {
        let mut v: Vec<char> = Vec::new();
        v.push(digit_exec(n));
        v
    } else {
        let mut v = decimal_chars(n / 10);
        v.push(digit_exec(n % 10));
        v
    }
}

/// `n.to_string()` for a `u64`, as characters.
pub fn decimal_u64_chars(n: u64) -> (out: Vec<char>)
    ensures
        out@ == decimal(n as nat),
    decreases n,
{
    if n < 10 {
        let mut v: Vec<char> = Vec::new();
        v.push(digit_exec(n as usize));
        v
    } else {
        let mut v = decimal_u64_chars(n / 10);
        v.push(digit_exec((n % 10) as usize));
        v
    }
}

/// The first position at which `p` holds.
pub open spec fn first_index<T>(s: Seq<T>, p: spec_fn(T) -> bool) -> Option<int>
    decreases s.len(),
{
    if s.len() == 0 {
        None
    } else {
        match first_index(s.drop_last(), p) {
            Some(k) => Some(k),
            None => if p(s.last()) {
                Some(s.len() - 1)
            } else {
                None
            },
        }
    }
}

/// What `first_index` says, in words: where `p` first holds, or that it never
/// does.
pub proof fn lemma_first_index<T>(s: Seq<T>, p: spec_fn(T) -> bool)
    ensures
        match first_index(s, p) {
            Some(k) => 0 <= k < s.len() && p(s[k]) && forall|j: int| 0 <= j < k ==> !p(#[trigger] s[j]),
            None => forall|j: int| 0 <= j < s.len() ==> !p(#[trigger] s[j]),
        },
    decreases s.len(),
{
    if s.len() > 0 {
        lemma_first_index(s.drop_last(), p);
        assert forall|j: int| 0 <= j < s.len() - 1 implies s.drop_last()[j] == s[j] by {}
    }
}

/// A position is the first at which `p` holds exactly when `first_index`
/// says so.
pub proof fn lemma_first_index_is<T>(s: Seq<T>, p: spec_fn(T) -> bool, k: int)
    requires
        0 <= k < s.len(),
        p(s[k]),
        forall|j: int| 0 <= j < k ==> !p(#[trigger] s[j]),
    ensures
        first_index(s, p) == Some(k),
{
    lemma_first_index(s, p);
}

/// Filtering keeps a list whole when everything in it passes.
pub proof fn lemma_filter_all<T>(s: Seq<T>, p: spec_fn(T) -> bool)
    requires
        forall|k: int| 0 <= k < s.len() ==> p(#[trigger] s[k]),
    ensures
        s.filter(p) == s,
    decreases s.len(),
{
    if s.len() > 0 {
        let init = s.drop_last();
        assert forall|k: int| 0 <= k < init.len() implies p(#[trigger] init[k]) by {
            assert(init[k] == s[k]);
        }
        lemma_filter_all(init, p);
        init.lemma_filter_push(s.last(), p);
        assert(s =~= init.push(s.last()));
        assert(p(s[s.len() - 1]));
    } else {
        assert(s.filter(p) =~= s);
    }
}

/// A count of zeros.
pub open spec fn zeros(n: nat) -> Seq<char> {
    Seq::new(n, |i: int| '0')
}

/// `{:0w}` of a non-negative number: its digits, zero-filled on the left to
/// at least `width` characters.
pub open spec fn zero_padded(n: nat, width: nat) -> Seq<char> {
    let s = decimal(n);
    if s.len() < width {
        zeros((width - s.len()) as nat) + s
    } else {
        s
    }
}

/// `{:0w}` of any integer: the sign counts toward the width, and the zeros
/// go between the sign and the digits.
pub open spec fn padded_int(x: int, width: nat) -> Seq<char> {
    if x < 0 {
        "-"@ + zero_padded((-x) as nat, if width > 0 {
            (width - 1) as nat
        } else {
            0
        })
    } else {
        zero_padded(x as nat, width)
    }
}

/// `format!("{x:0w}")`, as characters.
pub fn padded_int_chars(x: i64, width: usize) -> (out: Vec<char>)
    ensures
        out@ == padded_int(x as int, width as nat),
{
    let negative = x < 0;
    let magnitude: u64 = if negative {
        ((-(x + 1)) as u64) + 1
    } else {
        x as u64
    };
    let digits = decimal_u64_chars(magnitude);
    let want: usize = if negative {
        if width > 0 {
            width - 1
        } else {
            0
        }
    } else {
        width
    };
    let mut out: Vec<char> = Vec::new();
    if negative {
        out.push('-');
    }
    proof {
        reveal_strlit("-");
        assert(zeros(0) =~= Seq::<char>::empty());
        if negative {
            assert(out@ =~= "-"@ + zeros(0));
        } else {
            assert(out@ =~= Seq::<char>::empty() + zeros(0));
        }
    }
    let mut fill: usize = 0;
    let gap: usize = if digits.len() < want {
        want - digits.len()
    } else {
        0
    };
    while fill < gap
        invariant
            fill <= gap,
            out@ == (if negative {
                "-"@
            } else {
                Seq::<char>::empty()
            }) + zeros(fill as nat),
        decreases gap - fill,
    {
        out.push('0');
        proof {
            reveal_strlit("-");
            assert(zeros((fill + 1) as nat) =~= zeros(fill as nat).push('0'));
        }
        fill += 1;
    }
    append_chars(&mut out, digits.as_slice());
    proof {
        reveal_strlit("-");
        assert(zeros(0) =~= Seq::<char>::empty());
        if negative {
            assert(-(x as int) == magnitude as int);
            if digits@.len() < want {
                assert(out@ =~= "-"@ + (zeros((want - digits@.len()) as nat) + decimal(
                    magnitude as nat,
                )));
            } else {
                assert(out@ =~= "-"@ + decimal(magnitude as nat));
            }
        } else {
            if digits@.len() < want {
                assert(out@ =~= zeros((want - digits@.len()) as nat) + decimal(magnitude as nat));
            } else {
                assert(out@ =~= decimal(magnitude as nat));
            }
        }
    }
    out
}

/// The value of a run of decimal digits.
pub open spec fn digits_value(s: Seq<char>) -> nat
    decreases s.len(),
{
    if s.len() == 0 {
        0
    } else {
        digits_value(s.drop_last()) * 10 + (s.last() as u32 - '0' as u32) as nat
    }
}

pub open spec fn all_digits(s: Seq<char>) -> bool {
    forall|k: int| 0 <= k < s.len() ==> is_digit(#[trigger] s[k])
}

/// `str::parse::<usize>()`: an optional `+`, then at least one digit and
/// nothing else, with a value that fits.
pub open spec fn parse_usize(s: Seq<char>) -> Option<nat> {
    let body = if s.len() > 0 && s[0] == '+' {
        s.drop_first()
    } else {
        s
    };
    if body.len() > 0 && all_digits(body) && digits_value(body) <= usize::MAX {
        Some(digits_value(body))
    } else {
        None
    }
}

pub proof fn lemma_digits_value_mono(s: Seq<char>, k: int)
    requires
        0 <= k <= s.len(),
        all_digits(s),
    ensures
        digits_value(s.take(k)) <= digits_value(s),
    decreases s.len(),
{
    if k < s.len() {
        assert(all_digits(s.drop_last()));
        assert(s.drop_last().take(k) =~= s.take(k));
        lemma_digits_value_mono(s.drop_last(), k);
    } else {
        assert(s.take(k) =~= s);
    }
}

/// `str::parse::<usize>()`.
pub fn parse_usize_exec(s: &[char]) -> (r: Option<usize>)
    ensures
        match r {
            Some(v) => parse_usize(s@) == Some(v as nat),
            None => parse_usize(s@) is None,
        },
{
    let start: usize = if s.len() > 0 && s[0] == '+' {
        1
    } else {
        0
    };
    let ghost body = if s@.len() > 0 && s@[0] == '+' {
        s@.drop_first()
    } else {
        s@
    };
    assert(body =~= s@.skip(start as int));
    if start == s.len() {
        return None;
    }
    let mut value: usize = 0;
    let mut i: usize = start;
    while i < s.len()
        invariant
            start <= i <= s.len(),
            body =~= s@.skip(start as int),
            body == (if s@.len() > 0 && s@[0] == '+' {
                s@.drop_first()
            } else {
                s@
            }),
            all_digits(body.take(i - start)),
            value == digits_value(body.take(i - start)),
        decreases s.len() - i,
    {
        let c = s[i];
        proof {
            assert(body.take(i + 1 - start).drop_last() =~= body.take(i - start));
            assert(body.take(i + 1 - start).last() == c);
        }
        if !('0' <= c && c <= '9') {
            proof {
                assert(!is_digit(body[i - start]));
                assert(!all_digits(body));
            }
            return None;
        }
        let d = (c as u32 - '0' as u32) as usize;
        if value > (usize::MAX - d) / 10 {
            proof {
                assert(all_digits(body.take(i + 1 - start)));
                assert(digits_value(body.take(i + 1 - start)) == value * 10 + d);
                assert(value * 10 + d > usize::MAX) by (nonlinear_arith)
                    requires
                        value > (usize::MAX - d) / 10,
                        d <= 9,
                ;
                if all_digits(body) {
                    lemma_digits_value_mono(body, i + 1 - start);
                }
            }
            return None;
        }
        proof {
            assert(value * 10 + d <= usize::MAX) by (nonlinear_arith)
                requires
                    value <= (usize::MAX - d) / 10,
                    d <= 9,
            ;
        }
        value = value * 10 + d;
        i += 1;
    }
    assert(body.take(s.len() - start) =~= body);
    Some(value)
}

} // verus!

verus! {

// ---------------------------------------------------------------------------
// Sorting names
// ---------------------------------------------------------------------------

/// The text of each string.
pub open spec fn views(v: Seq<String>) -> Seq<Seq<char>> {
    v.map_values(|s: String| s@)
}

/// `names.sort()` on strings: the sorted arrangement of the same names.
pub open spec fn sorted_texts(s: Seq<Seq<char>>) -> Seq<Seq<char>> {
    s.sort_by(text_leq())
}

/// Sorting keeps exactly the names it was given.
pub proof fn lemma_sorted_contains(s: Seq<Seq<char>>, x: Seq<char>)
    ensures
        sorted_texts(s).contains(x) <==> s.contains(x),
{
    lemma_text_order();
    s.lemma_sort_by_ensures(text_leq());
    vstd::seq_lib::to_multiset_contains(s, x);
    vstd::seq_lib::to_multiset_contains(sorted_texts(s), x);
}

pub proof fn lemma_sorted_is(x: Seq<Seq<char>>, y: Seq<Seq<char>>)
    requires
        sorted_by(x, text_leq()),
        x.to_multiset() == y.to_multiset(),
    ensures
        x == sorted_texts(y),
{
    lemma_text_order();
    y.lemma_sort_by_ensures(text_leq());
    vstd::seq_lib::lemma_sorted_unique(x, y.sort_by(text_leq()), text_leq());
}

/// Where `x` goes in a sorted list so that it lands after everything not
/// greater than it.
fn insert_position(r: &Vec<String>, x: &String) -> (j: usize)
    ensures
        j <= r@.len(),
        forall|k: int| 0 <= k < j ==> !text_lt(x@, #[trigger] r@[k]@),
        j < r@.len() ==> text_lt(x@, r@[j as int]@),
{
    let mut j: usize = 0;
    while j < r.len() && !less_text(x.as_str(), r[j].as_str())
        invariant
            j <= r@.len(),
            forall|k: int| 0 <= k < j ==> !text_lt(x@, #[trigger] r@[k]@),
        decreases r.len() - j,
    {
        j += 1;
    }
    j
}

proof fn lemma_insert_sorted(r: Seq<Seq<char>>, x: Seq<char>, j: int)
    requires
        sorted_by(r, text_leq()),
        0 <= j <= r.len(),
        forall|k: int| 0 <= k < j ==> !text_lt(x, #[trigger] r[k]),
        j < r.len() ==> text_lt(x, r[j]),
    ensures
        sorted_by(r.insert(j, x), text_leq()),
{
    let s = r.insert(j, x);
    assert forall|a: int, b: int| 0 <= a < b < s.len() implies #[trigger] (text_leq())(
        s[a],
        s[b],
    ) by {
        if a < j && b == j {
            lemma_text_lt_total(x, r[a]);
        } else if a == j && b > j {
            assert(s[b] == r[b - 1]);
            if b - 1 > j {
                assert((text_leq())(r[j], r[b - 1]));
                if r[j] != r[b - 1] {
                    lemma_text_lt_trans(x, r[j], r[b - 1]);
                }
            }
        } else if a < j && b > j {
            assert(s[b] == r[b - 1]);
            assert((text_leq())(r[a], r[b - 1]));
        } else if a > j {
            assert(s[a] == r[a - 1]);
            assert(s[b] == r[b - 1]);
            assert((text_leq())(r[a - 1], r[b - 1]));
        } else {
            assert((text_leq())(r[a], r[b]));
        }
    }
}

/// `names.sort()`.
pub fn sort_texts(v: &Vec<String>) -> (r: Vec<String>)
    ensures
        views(r@) == sorted_texts(views(v@)),
        r@.len() == v@.len(),
{
    let mut r: Vec<String> = Vec::new();
    let mut i: usize = 0;
    assert(views(r@) =~= views(v@.take(0)));
    while i < v.len()
        invariant
            i <= v.len(),
            sorted_by(views(r@), text_leq()),
            views(r@).to_multiset() == views(v@.take(i as int)).to_multiset(),
        decreases v.len() - i,
    {
        let x = copy_text(&v[i]);
        let j = insert_position(&r, &x);
        proof {
            lemma_insert_sorted(views(r@), x@, j as int);
            assert(views(r@.insert(j as int, x)) =~= views(r@).insert(j as int, x@));
            assert(views(v@.take(i + 1)) =~= views(v@.take(i as int)).push(x@));
            vstd::seq_lib::to_multiset_insert(views(r@), j as int, x@);
            vstd::seq_lib::to_multiset_build(views(v@.take(i as int)), x@);
        }
        r.insert(j, x);
        i += 1;
    }
    proof {
        assert(v@.take(v.len() as int) =~= v@);
        lemma_sorted_is(views(r@), views(v@));
        vstd::seq_lib::to_multiset_len(views(r@));
        vstd::seq_lib::to_multiset_len(views(v@));
    }
    r
}

} // verus!

verus! {

/// Inserting `x` after everything not greater than it, and before the first
/// thing that is, keeps a sorted list sorted.
pub proof fn lemma_insert_sorted_by<T>(r: Seq<T>, x: T, j: int, leq: spec_fn(T, T) -> bool)
    requires
        total_ordering(leq),
        sorted_by(r, leq),
        0 <= j <= r.len(),
        forall|k: int| 0 <= k < j ==> #[trigger] leq(r[k], x),
        j < r.len() ==> !leq(r[j], x),
    ensures
        sorted_by(r.insert(j, x), leq),
{
    let s = r.insert(j, x);
    assert forall|a: int, b: int| 0 <= a < b < s.len() implies #[trigger] leq(s[a], s[b]) by {
        if a < j && b == j {
        } else if a == j && b > j {
            assert(s[b] == r[b - 1]);
            assert(leq(x, r[j]));
            if b - 1 > j {
                assert(leq(r[j], r[b - 1]));
            }
        } else if a < j && b > j {
            assert(s[b] == r[b - 1]);
            assert(leq(r[a], r[b - 1]));
        } else if a > j {
            assert(s[a] == r[a - 1]);
            assert(s[b] == r[b - 1]);
            assert(leq(r[a - 1], r[b - 1]));
        } else {
            assert(leq(r[a], r[b]));
        }
    }
}

/// How many times `x` occurs in `s`.
pub open spec fn occurrences(s: Seq<Seq<char>>, x: Seq<char>) -> nat
    decreases s.len(),
{
    if s.len() == 0 {
        0
    } else {
        occurrences(s.drop_last(), x) + if s.last() == x {
            1nat
        } else {
            0nat
        }
    }
}

pub fn occurrences_exec(s: &Vec<String>, x: &str) -> (n: usize)
    ensures
        n == occurrences(views(s@), x@),
{
    let mut n: usize = 0;
    let mut i: usize = 0;
    while i < s.len()
        invariant
            i <= s@.len(),
            n == occurrences(views(s@).take(i as int), x@),
            n <= i,
        decreases s.len() - i,
    {
        proof {
            assert(views(s@).take(i + 1).drop_last() =~= views(s@).take(i as int));
        }
        if same_text(s[i].as_str(), x) {
            n += 1;
        }
        i += 1;
    }
    proof {
        assert(views(s@).take(s@.len() as int) =~= views(s@));
    }
    n
}

} // verus!
